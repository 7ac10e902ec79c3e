//! What the instructions of a function do: it returns what its body says.

use crate::ast::{FuncDefV, FuncParamV, GlobalItemV};
use crate::cfg;
use crate::error::ErrorView;
use crate::ir::{self, BlockV, InstV, IrOperand, IrType};
use crate::ir_builder;
use crate::meaning::{self, MachineV, OutcomeV, StateV};
use crate::promotion_meaning;
use crate::statement_meaning::{self, Env, FlowV, ThingV};
use crate::translate::{self, GenV, SymV};
use crate::translation_blocks;
use crate::translation_flow;
use crate::translation_links;
use crate::translation_meaning::{self, Calls, SpotV};
use vstd::prelude::*;

verus! {

// ── From points to outcomes ──────────────────────────────────────────────────

/// Blocks of a translated function: each ends in a branch or a return, and there are no phis.
spec fn plain(blocks: Seq<BlockV>) -> bool {
    &&& blocks.len() <= usize::MAX
    &&& forall|b: int|
        0 <= b < blocks.len() ==> translation_blocks::block_ends(#[trigger] blocks[b])
    &&& translation_blocks::no_phis(blocks)
}

/// What becomes of a function from a point in a block on.
spec fn outcome_from<W>(
    m: MachineV<W>,
    own: Set<usize>,
    blocks: Seq<BlockV>,
    b: int,
    at: int,
    s: StateV<W>,
    fuel: nat,
) -> OutcomeV<W> {
    let instrs = blocks[b].instrs;
    let t = meaning::run(m, own, s, instrs.subrange(at, instrs.len() as int));
    match instrs.last() {
        InstV::Ret { value: None } => OutcomeV::Returned(t.world, None),
        InstV::Ret { value: Some(v) } => OutcomeV::Returned(
            t.world,
            Some(meaning::value(m, t, v)),
        ),
        InstV::Jump { target } => meaning::outcome_at(m, own, blocks, target, b as usize, t, fuel),
        InstV::Br { cond, then_bb, else_bb } => meaning::outcome_at(
            m,
            own,
            blocks,
            if meaning::value(m, t, cond) != 0 {
                then_bb
            } else {
                else_bb
            },
            b as usize,
            t,
            fuel,
        ),
        _ => OutcomeV::Stuck,
    }
}

/// A block is carried out from its start.
proof fn outcome_from_start<W>(
    m: MachineV<W>,
    own: Set<usize>,
    blocks: Seq<BlockV>,
    b: int,
    from: usize,
    s: StateV<W>,
    fuel: nat,
)
    requires
        plain(blocks),
        0 <= b < blocks.len(),
        fuel > 0,
    ensures
        meaning::outcome(m, own, blocks, b, from, s, fuel) == outcome_from(
            m,
            own,
            blocks,
            b,
            0,
            s,
            fuel,
        ),
{
    let instrs = blocks[b].instrs;
    assert(translation_blocks::block_ends(blocks[b]));
    assert forall|i: int| 0 <= i < instrs.len() implies !(#[trigger] instrs[i] is Phi) by {
        assert(!(blocks[b].instrs[i] is Phi));
    }
    promotion_meaning::no_phis_entered(m, s, instrs, from);
    assert(instrs.subrange(0, instrs.len() as int) =~= instrs);
}

/// A point outside all blocks stays.
proof fn outside_stays<W>(
    m: MachineV<W>,
    own: Set<usize>,
    blocks: Seq<BlockV>,
    c: SpotV<W>,
    n: nat,
)
    requires
        c.block < 0,
    ensures
        translation_meaning::walked(m, own, blocks, c, n) == c,
    decreases n,
{
    if n > 0 {
        outside_stays(m, own, blocks, c, (n - 1) as nat);
    }
}

/// A walk that comes to a return is the way to the end of the function.
proof fn walk_returns<W>(
    m: MachineV<W>,
    own: Set<usize>,
    blocks: Seq<BlockV>,
    b: int,
    at: int,
    s: StateV<W>,
    n: nat,
    v: Option<i32>,
) -> (fuel: nat)
    requires
        plain(blocks),
        0 <= b < blocks.len(),
        0 <= at < blocks[b].instrs.len(),
        statement_meaning::at_return(
            m,
            blocks,
            translation_meaning::walked(m, own, blocks, (SpotV { block: b, at, state: s }), n),
            v,
        ),
    ensures
        fuel > 0,
        outcome_from(m, own, blocks, b, at, s, fuel) == OutcomeV::Returned(
            translation_meaning::walked(
                m,
                own,
                blocks,
                (SpotV { block: b, at, state: s }),
                n,
            ).state.world,
            v,
        ),
    decreases n,
{
    let c = SpotV { block: b, at, state: s };
    let instrs = blocks[b].instrs;
    let len = instrs.len() as int;
    let rest = instrs.subrange(at, len);
    let i = instrs[at];
    assert(translation_blocks::block_ends(blocks[b]));
    if at == len - 1 {
        assert(rest =~= seq![i]);
        assert(rest.drop_last() =~= Seq::empty());
        assert(ir::terminator(i));
        assert(meaning::run(m, own, s, rest) == s) by {
            assert(meaning::run(m, own, s, rest.drop_last()) == s);
        }
        if i is Ret {
            return_stays(m, own, blocks, c, n);
            1
        } else {
            assert(n > 0);
            translation_meaning::walked_on(m, own, blocks, c, 1, (n - 1) as nat);
            let c1 = translation_meaning::moved(m, own, blocks, c);
            assert(translation_meaning::walked(m, own, blocks, c, 0) == c);
            assert(translation_meaning::walked(m, own, blocks, c, 1) == c1);
            let label = match i {
                InstV::Jump { target } => target,
                InstV::Br { cond, then_bb, else_bb } => if meaning::value(m, s, cond) != 0 {
                    then_bb
                } else {
                    else_bb
                },
                _ => 0,
            };
            assert(c1 == translation_meaning::at_label(blocks, label, s));
            cfg::label_position_is_last(blocks, label);
            if cfg::label_position(blocks, label) is None {
                outside_stays(m, own, blocks, c1, (n - 1) as nat);
                assert(false);
            }
            let to = cfg::label_position(blocks, label)->0 as int;
            assert(translation_blocks::block_ends(blocks[to]));
            let f = walk_returns(m, own, blocks, to, 0, s, (n - 1) as nat, v);
            outcome_from_start(m, own, blocks, to, b as usize, s, f);
            f + 1
        }
    } else {
        assert(!(i is Ret)) by {
            assert(ir::terminator(i) <==> at == len - 1);
        }
        assert(n > 0);
        translation_meaning::walked_on(m, own, blocks, c, 1, (n - 1) as nat);
        let t = meaning::step(m, own, s, i);
        let c1 = SpotV { block: b, at: at + 1, state: t };
        assert(translation_meaning::walked(m, own, blocks, c, 0) == c);
        assert(translation_meaning::walked(m, own, blocks, c, 1) == c1);
        let f = walk_returns(m, own, blocks, b, at + 1, t, (n - 1) as nat, v);
        let one = seq![i];
        let after = instrs.subrange(at + 1, len);
        assert(rest =~= one + after);
        promotion_meaning::run_on(m, own, s, one, after);
        assert(one.drop_last() =~= Seq::empty());
        assert(meaning::run(m, own, s, one) == t) by {
            assert(meaning::run(m, own, s, one.drop_last()) == s);
        }
        f
    }
}

/// A point at a return stays.
proof fn return_stays<W>(
    m: MachineV<W>,
    own: Set<usize>,
    blocks: Seq<BlockV>,
    c: SpotV<W>,
    n: nat,
)
    requires
        0 <= c.block < blocks.len(),
        0 <= c.at < blocks[c.block].instrs.len(),
        blocks[c.block].instrs[c.at] is Ret,
    ensures
        translation_meaning::walked(m, own, blocks, c, n) == c,
    decreases n,
{
    if n > 0 {
        return_stays(m, own, blocks, c, (n - 1) as nat);
    }
}

// ── Allocations ──────────────────────────────────────────────────────────────

/// Blocks with allocations before the first of them.
spec fn with_allocs(blocks: Seq<BlockV>, vars: Seq<(usize, IrType)>) -> Seq<BlockV> {
    blocks.update(
        0,
        BlockV { instrs: ir_builder::allocs(vars) + blocks[0].instrs, ..blocks[0] },
    )
}

proof fn allocs_run<W>(
    m: MachineV<W>,
    own: Set<usize>,
    s: StateV<W>,
    vars: Seq<(usize, IrType)>,
)
    ensures
        meaning::run(m, own, s, ir_builder::allocs(vars)) == s,
    decreases vars.len(),
{
    if vars.len() > 0 {
        assert(ir_builder::allocs(vars).drop_last() =~= ir_builder::allocs(vars.drop_last()));
        allocs_run(m, own, s, vars.drop_last());
    }
}

proof fn same_labels_found(a: Seq<BlockV>, b: Seq<BlockV>, label: usize)
    requires
        a.len() == b.len(),
        forall|i: int| 0 <= i < a.len() ==> (#[trigger] a[i]).label == b[i].label,
    ensures
        cfg::label_position(a, label) == cfg::label_position(b, label),
    decreases a.len(),
{
    if a.len() > 0 {
        assert(a[a.len() - 1].label == b[b.len() - 1].label);
        assert forall|i: int| 0 <= i < a.len() - 1 implies (#[trigger] a.drop_last()[i]).label
            == b.drop_last()[i].label by {
            assert(a[i].label == b[i].label);
        }
        same_labels_found(a.drop_last(), b.drop_last(), label);
    }
}

/// Allocations change nothing.
proof fn allocs_keep_outcome<W>(
    m: MachineV<W>,
    own: Set<usize>,
    blocks: Seq<BlockV>,
    vars: Seq<(usize, IrType)>,
    b: int,
    from: usize,
    s: StateV<W>,
    fuel: nat,
)
    requires
        plain(blocks),
        blocks.len() > 0,
    ensures
        meaning::outcome(m, own, with_allocs(blocks, vars), b, from, s, fuel) == meaning::outcome(
            m,
            own,
            blocks,
            b,
            from,
            s,
            fuel,
        ),
    decreases fuel,
{
    let all = with_allocs(blocks, vars);
    if fuel > 0 && 0 <= b < blocks.len() {
        let x = all[b].instrs;
        let y = blocks[b].instrs;
        assert(translation_blocks::block_ends(blocks[b]));
        assert forall|i: int| 0 <= i < y.len() implies !(#[trigger] y[i] is Phi) by {
            assert(!(blocks[b].instrs[i] is Phi));
        }
        let first = ir_builder::allocs(vars);
        assert forall|i: int| 0 <= i < x.len() implies !(#[trigger] x[i] is Phi) by {
            if b == 0 {
                if i < first.len() {
                    assert(x[i] == first[i]);
                } else {
                    assert(x[i] == y[i - first.len()]);
                }
            }
        }
        promotion_meaning::no_phis_entered(m, s, x, from);
        promotion_meaning::no_phis_entered(m, s, y, from);
        if b == 0 {
            promotion_meaning::run_on(m, own, s, first, y);
            allocs_run(m, own, s, vars);
            assert(x.last() == y.last());
        }
        let t = meaning::run(m, own, s, y);
        assert(meaning::run(m, own, s, x) == t);
        let label = match y.last() {
            InstV::Jump { target } => target,
            InstV::Br { cond, then_bb, else_bb } => if meaning::value(m, t, cond) != 0 {
                then_bb
            } else {
                else_bb
            },
            _ => 0,
        };
        same_labels_found(all, blocks, label);
        if let Some(to) = cfg::label_position(blocks, label) {
            allocs_keep_outcome(
                m,
                own,
                blocks,
                vars,
                to as int,
                b as usize,
                t,
                (fuel - 1) as nat,
            );
        }
    }
}

// ── Parameters ───────────────────────────────────────────────────────────────

/// The state in which an array parameter is bound, what it stands for, and its name and type in the
/// signature.
pub open spec fn array_made(g: GenV, p: FuncParamV) -> (GenV, SymV, (usize, IrType)) {
    let (g1, first) = g.local_name(p.name)->Ok_0;
    let (g2, n) = g1.intern(first)->Ok_0;
    let (h, q) = translate::param(g, p)->Ok_0;
    (
        g2,
        if p.array_dims.len() == 0 {
            SymV::PtrArray(n)
        } else {
            SymV::NdParam { name: n, dims: translate::param_dims(g2, p.array_dims) }
        },
        q,
    )
}

/// What names stand for once parameters from the `k`th on have been given theirs: an integer the
/// value that its name in the signature stands for, an array the address that its name stands for.
/// `g` is the state of the translation before them.
pub open spec fn given<W>(
    m: MachineV<W>,
    g: GenV,
    env: Env,
    ps: Seq<FuncParamV>,
    sigs: Seq<(usize, IrType)>,
    k: int,
) -> Env
    decreases ps.len() - k,
{
    if k < 0 || k >= ps.len() {
        env
    } else {
        given(
            m,
            (translate::param(g, ps[k])->Ok_0).0,
            statement_meaning::bound(
                env,
                ps[k].name,
                if ps[k].is_array {
                    ThingV::Array(array_made(g, ps[k]).1)
                } else {
                    ThingV::Value((m.address)(sigs[k].0))
                },
            ),
            ps,
            sigs,
            k + 1,
        )
    }
}

/// Whether the variable of a parameter gets a name that no other variable of the function has.
pub open spec fn param_is_new(g: GenV, p: FuncParamV) -> bool {
    !p.is_array ==> (g.local_name(p.name) matches Ok((g1, first)) ==> (g1.mangle(p.name) matches Ok(
        (g2, second),
    ) ==> (g2.intern(first) matches Ok((g3, _)) ==> g3.b.own_global(second) is None)))
}

/// Whether the variables of parameters from the `k`th on get such names.
pub open spec fn params_are_new(g: GenV, ps: Seq<FuncParamV>, k: int) -> bool
    decreases ps.len() - k,
{
    if k < 0 || k >= ps.len() {
        true
    } else {
        &&& param_is_new(g, ps[k])
        &&& translate::param(g, ps[k]) matches Ok((g1, _)) ==> params_are_new(g1, ps, k + 1)
    }
}

/// The state in which the value of an integer parameter is stored, and the index of its name in
/// the signature.
spec fn param_made(g: GenV, p: FuncParamV) -> (GenV, usize) {
    let (g1, first) = g.local_name(p.name)->Ok_0;
    let (g2, second) = g1.mangle(p.name)->Ok_0;
    let (g3, sig) = g2.intern(first)->Ok_0;
    let (g4, n) = g3.intern(second)->Ok_0;
    (g4.pend(n, IrType::I32), sig)
}

/// An integer parameter is stored in a new variable.
proof fn param_made_grows(g: GenV, p: FuncParamV)
    requires
        translation_blocks::open_at(g),
        !p.is_array,
        param_is_new(g, p),
        translate::param(g, p) is Ok,
    ensures
        ({
            let (h, sig) = param_made(g, p);
            let x = (h.b.global_counter - 1) as usize;
            let i = InstV::Store { value: IrOperand::Global(sig), ptr: IrOperand::Global(x) };
            &&& translation_meaning::grown(g, h)
            &&& translation_blocks::open_at(h)
            &&& h.b.blocks == g.b.blocks
            &&& g.b.global_counter <= x < h.b.global_counter
            &&& translate::param(g, p) == Ok::<(GenV, (usize, IrType)), ErrorView>(
                (h.emit(i).bind(p.name, SymV::Var(x)), (sig, IrType::I32)),
            )
        }),
{
    let (h, sig) = param_made(g, p);
    translation_blocks::same_blocks(g, h);
    translation_meaning::counted_grows(g, h);
}

/// An array parameter is only bound.
proof fn array_made_grows(g: GenV, p: FuncParamV)
    requires
        translation_blocks::open_at(g),
        p.is_array,
        translate::param(g, p) is Ok,
    ensures
        ({
            let (h, sym, q) = array_made(g, p);
            &&& translation_meaning::grown(g, h)
            &&& translation_blocks::open_at(h)
            &&& h.b.blocks == g.b.blocks
            &&& g.b.global_counter <= h.b.global_counter
            &&& sym is PtrArray || sym is NdParam
            &&& translate::param(g, p) == Ok::<(GenV, (usize, IrType)), ErrorView>(
                (h.bind(p.name, sym), q),
            )
        }),
{
    let (h, sym, q) = array_made(g, p);
    translation_blocks::same_blocks(g, h);
    translation_meaning::counted_grows(g, h);
}

proof fn param_grows(g: GenV, p: FuncParamV)
    requires
        translation_blocks::open_at(g),
        g.scopes.len() > 0,
        param_is_new(g, p),
    ensures
        translate::param(g, p) matches Ok((h, _)) ==> statement_meaning::widened(g, h)
            && translation_blocks::open_at(h),
{
    if translate::param(g, p) is Ok {
        translation_blocks::param_tidy(g, p);
        if p.is_array {
            array_made_grows(g, p);
            let (h, sym, _) = array_made(g, p);
            statement_meaning::grown_is_widened(g, h);
            statement_meaning::bind_widens(h, p.name, sym);
            statement_meaning::widened_on(g, h, h.bind(p.name, sym));
        } else {
            param_made_grows(g, p);
            let (h, sig) = param_made(g, p);
            let x = (h.b.global_counter - 1) as usize;
            let i = InstV::Store { value: IrOperand::Global(sig), ptr: IrOperand::Global(x) };
            translation_meaning::emit_grows(h, i);
            translation_blocks::emit_tidy(h, i);
            translation_meaning::grown_on(g, h, h.emit(i));
            statement_meaning::grown_is_widened(g, h.emit(i));
            statement_meaning::bind_widens(h.emit(i), p.name, SymV::Var(x));
            statement_meaning::widened_on(g, h.emit(i), h.emit(i).bind(p.name, SymV::Var(x)));
        }
    }
}

proof fn params_grow(g: GenV, ps: Seq<FuncParamV>, k: int, done: Seq<(usize, IrType)>)
    requires
        translation_blocks::open_at(g),
        g.scopes.len() > 0,
        params_are_new(g, ps, k),
        0 <= k,
        done.len() == k,
    ensures
        translate::params(g, ps, k, done) matches Ok((h, sigs)) ==> statement_meaning::widened(g, h)
            && translation_blocks::open_at(h) && sigs.len() >= done.len() && (forall|j: int|
            0 <= j < k ==> #[trigger] sigs[j] == done[j]),
    decreases ps.len() - k,
{
    if k < ps.len() {
        param_grows(g, ps[k]);
        if let Ok((g1, q)) = translate::param(g, ps[k]) {
            params_grow(g1, ps, k + 1, done.push(q));
            if let Ok((h, sigs)) = translate::params(g1, ps, k + 1, done.push(q)) {
                statement_meaning::widened_on(g, g1, h);
                assert forall|j: int| 0 <= j < k implies #[trigger] sigs[j] == done[j] by {
                    assert(sigs[j] == done.push(q)[j]);
                }
            }
        }
    } else {
        statement_meaning::longer_same(g, g);
    }
}

/// The instructions of parameters store their values.
proof fn params_walk<W>(
    m: MachineV<W>,
    own: Set<usize>,
    blocks: Seq<BlockV>,
    names: Seq<Seq<char>>,
    k: usize,
    g0: GenV,
    g: GenV,
    env: Env,
    st: StateV<W>,
    ps: Seq<FuncParamV>,
    i: int,
    done: Seq<(usize, IrType)>,
) -> (n: nat)
    requires
        forall|x: usize| x >= k ==> #[trigger] own.contains(x),
        statement_meaning::stands(own, k, g0, g),
        statement_meaning::agree(g.scopes, env, st.vars),
        0 <= i,
        done.len() == i,
        params_are_new(g, ps, i),
        translate::params(g, ps, i, done) matches Ok((h, _)) && translation_meaning::continues(
            blocks,
            names,
            h,
        ),
    ensures
        ({
            let (h, sigs) = translate::params(g, ps, i, done)->Ok_0;
            let c = translation_meaning::walked(
                m,
                own,
                blocks,
                translation_meaning::here(g, st),
                n,
            );
            &&& statement_meaning::stands(own, k, g0, h)
            &&& c == translation_meaning::here(h, c.state)
            &&& c.state.world == st.world
            &&& statement_meaning::agree(h.scopes, given(m, g, env, ps, sigs, i), c.state.vars)
        }),
    decreases ps.len() - i,
{
    if i < ps.len() {
        let p = ps[i];
        let (h, sigs) = translate::params(g, ps, i, done)->Ok_0;
        let (g1, q) = translate::param(g, p)->Ok_0;
        let start = translation_meaning::here(g, st);
        param_grows(g, p);
        params_grow(g1, ps, i + 1, done.push(q));
        assert(sigs[i] == done.push(q)[i]);
        translation_meaning::continues_from(blocks, names, g1, h);
        if p.is_array {
            array_made_grows(g, p);
            let (g2, sym, _) = array_made(g, p);
            statement_meaning::grown_is_widened(g, g2);
            statement_meaning::agree_bound(
                g.scopes,
                env,
                st.vars,
                p.name,
                sym,
                ThingV::Array(sym),
            );
            statement_meaning::placed_bound(own, g, g1, p.name, sym);
            assert(translation_meaning::here(g1, st) == start);
            params_walk(
                m,
                own,
                blocks,
                names,
                k,
                g0,
                g1,
                statement_meaning::bound(env, p.name, ThingV::Array(sym)),
                st,
                ps,
                i + 1,
                done.push(q),
            )
        } else {
            param_made_grows(g, p);
            let (g2, sig) = param_made(g, p);
            let x = (g2.b.global_counter - 1) as usize;
            let s = InstV::Store { value: IrOperand::Global(sig), ptr: IrOperand::Global(x) };
            let v = (m.address)(sig);
            statement_meaning::grown_is_widened(g, g2);
            translation_meaning::emit_grows(g2, s);
            translation_blocks::emit_tidy(g2, s);
            assert(translation_meaning::continues(blocks, names, g2.emit(s)));
            assert(translation_meaning::here(g2, st) == start);
            translation_meaning::one_walked(m, own, blocks, names, g2, g2.emit(s), s, st);
            let u = translation_meaning::walked(m, own, blocks, start, 1).state;
            assert(own.contains(x));
            assert(u.vars == st.vars.insert(x, v));
            statement_meaning::agree_stays(own, g, env, st.vars, u.vars);
            statement_meaning::agree_bound(
                g.scopes,
                env,
                u.vars,
                p.name,
                SymV::Var(x),
                ThingV::Value(v),
            );
            // The state before the variable has its index.
            let before = GenV {
                b: ir_builder::BuilderV { global_counter: x, ..g2.b },
                ..g
            };
            statement_meaning::placed_on(own, g, before);
            statement_meaning::placed_bound(own, before, g1, p.name, SymV::Var(x));
            let n2 = params_walk(
                m,
                own,
                blocks,
                names,
                k,
                g0,
                g1,
                statement_meaning::bound(env, p.name, ThingV::Value(v)),
                u,
                ps,
                i + 1,
                done.push(q),
            );
            translation_meaning::walked_on(m, own, blocks, start, 1, n2);
            1 + n2
        }
    } else {
        0
    }
}

// ── Functions ────────────────────────────────────────────────────────────────

/// Whether the names in the body of a function stand for what their places ask, and each of its
/// integer variables has a name that no other of its variables has.
pub open spec fn func_well_named(g: GenV, f: FuncDefV) -> bool {
    let g0 = translate::enter(g, f);
    &&& params_are_new(g0, f.params, 0)
    &&& translate::params(g0, f.params, 0, Seq::empty()) matches Ok((g1, _))
        ==> statement_meaning::items_well_named(
        translate::lib_block(g1, f.body, 0),
        f.body,
        0,
    )
}

/// The state of the translation where the body of a function starts.
pub open spec fn body_start(g: GenV, f: FuncDefV) -> GenV {
    translate::lib_block(
        (translate::params(translate::enter(g, f), f.params, 0, Seq::empty())->Ok_0).0,
        f.body,
        0,
    )
}

/// What names stand for where the body of a function starts.
pub open spec fn arguments<W>(
    m: MachineV<W>,
    g: GenV,
    f: FuncDefV,
    sigs: Seq<(usize, IrType)>,
) -> Env {
    given(m, translate::enter(g, f), seq![Map::empty()], f.params, sigs, 0)
}

/// What a function returns whose body ends as given: what is returned, or nothing or zero at its
/// end.
pub open spec fn returned<W>(f: FuncDefV, flow: FlowV<W>) -> Option<OutcomeV<W>> {
    match flow {
        FlowV::Returned(w, v) => Some(OutcomeV::Returned(w, v)),
        FlowV::Next(_, w) => Some(
            OutcomeV::Returned(
                w,
                if translate::ret_type(f.ret_type) is Void {
                    None
                } else {
                    Some(0i32)
                },
            ),
        ),
        _ => None,
    }
}

/// Whether the variables of a function are those that are new in it.
pub open spec fn owns(own: Set<usize>, g: GenV) -> bool {
    &&& forall|x: usize| x >= g.program.global_names.len() ==> #[trigger] own.contains(x)
    &&& forall|name: Seq<char>| #[trigger]
        g.globals.contains_key(name) ==> (g.globals[name] matches SymV::Var(x) ==> !own.contains(x))
}

/// The blocks of a function before its variables are allocated.
spec fn done(g: GenV) -> GenV {
    if g.b.terminated {
        g
    } else if g.ret_type is Void {
        g.emit(InstV::Ret { value: None })
    } else {
        g.emit(InstV::Ret { value: Some(IrOperand::Int(0)) })
    }
}

/// The stages of a function: where its body starts, and where it ends.
proof fn func_stages(g: GenV, f: FuncDefV)
    requires
        translate::func(g, f) is Ok,
        func_well_named(g, f),
    ensures
        ({
            let g0 = translate::enter(g, f);
            let (g1, sigs) = translate::params(g0, f.params, 0, Seq::empty())->Ok_0;
            let g2 = translate::lib_block(g1, f.body, 0);
            let g3 = translate::block(g2, f.body, 0)->Ok_0;
            let h = translate::func(g, f)->Ok_0;
            &&& translation_blocks::open_at(g0)
            &&& translation_blocks::open_at(g1)
            &&& translation_blocks::open_at(g2)
            &&& g2.b == g1.b
            &&& g2.scopes == g1.scopes
            &&& g2.globals == g1.globals
            &&& g2.func_rets == g1.func_rets
            &&& translation_blocks::tidy(g3)
            &&& translation_blocks::tidy(done(g3))
            &&& done(g3).b.terminated
            &&& translation_meaning::grown(g3, done(g3))
            &&& statement_meaning::widened(g2, g3)
            &&& g3.ret_type == translate::ret_type(f.ret_type)
            &&& h.program.funcs.last().blocks == with_allocs(
                done(g3).b.blocks,
                done(g3).b.pending,
            )
            &&& h.program.funcs.last().params == sigs
            &&& translation_meaning::starts(h.program.func_names, g3.program.func_names)
        }),
{
    let g0 = translate::enter(g, f);
    let (g1, sigs) = translate::params(g0, f.params, 0, Seq::empty())->Ok_0;
    let g2 = translate::lib_block(g1, f.body, 0);
    let g3 = translate::block(g2, f.body, 0)->Ok_0;
    assert(translation_blocks::open_at(g0)) by {
        reveal(translation_blocks::tidy);
    }
    params_grow(g0, f.params, 0, Seq::empty());
    translation_blocks::lib_block_apart(g1, f.body, 0);
    translation_blocks::same_blocks(g1, g2);
    translation_blocks::block_tidy(g2, f.body, 0);
    statement_meaning::items_grow(g2, f.body, 0);
    assert(g3.ret_type == g0.ret_type) by {
        reveal(translation_meaning::longer);
    }
    if g3.b.terminated {
        translation_meaning::counted_grows(g3, g3);
    } else {
        let none = InstV::Ret { value: None };
        let zero = InstV::Ret { value: Some(IrOperand::Int(0)) };
        translation_meaning::emit_grows(g3, none);
        translation_blocks::emit_tidy(g3, none);
        translation_meaning::emit_grows(g3, zero);
        translation_blocks::emit_tidy(g3, zero);
    }
}

/// The blocks of a function, before its variables are allocated, have the form of translated ones.
proof fn done_is_plain(g: GenV)
    requires
        translation_blocks::tidy(g),
        g.b.terminated,
        g.b.blocks.len() <= usize::MAX,
    ensures
        plain(g.b.blocks),
        translation_meaning::labels_differ(g.b.blocks),
        g.b.blocks.len() > 0,
{
    reveal(translation_blocks::tidy);
}

/// A translated function returns what its body says, and changes the world as its body does: where
/// the body comes to a return, or to its end, the blocks of the function come to the same end within
/// some number of blocks. Nothing is said of a body that uses a variable without a value.
pub proof fn translated_function_returns<W>(
    m: MachineV<W>,
    own: Set<usize>,
    calls: Calls<W>,
    g: GenV,
    f: FuncDefV,
    from: usize,
    st: StateV<W>,
    rounds: nat,
)
    requires
        func_well_named(g, f),
        owns(own, g),
        translate::func(g, f) matches Ok(h) && {
            &&& h.program.funcs.last().blocks.len() <= usize::MAX
            &&& h.program.func_names.len() <= usize::MAX
            &&& translation_meaning::called(m, calls, h.program.func_names)
            &&& translation_meaning::starts_at_zero(m)
        },
    ensures
        ({
            let code = translate::func(g, f)->Ok_0.program.funcs.last();
            returned(
                f,
                statement_meaning::all_carried_out(
                    m,
                    calls,
                    g,
                    body_start(g, f),
                    arguments(m, g, f, code.params),
                    st.world,
                    f.body,
                    0,
                    rounds,
                ),
            ) matches Some(r) ==> exists|fuel: nat|
                #[trigger] meaning::outcome(m, own, code.blocks, 0, from, st, fuel) == r
        }),
{
    func_stages(g, f);
    let g0 = translate::enter(g, f);
    let (g1, sigs) = translate::params(g0, f.params, 0, Seq::empty())->Ok_0;
    let g2 = translate::lib_block(g1, f.body, 0);
    let g3 = translate::block(g2, f.body, 0)->Ok_0;
    let h = translate::func(g, f)->Ok_0;
    let last = done(g3);
    let blocks = last.b.blocks;
    let names = h.program.func_names;
    let k = g.program.global_names.len() as usize;
    let nothing: Env = seq![Map::empty()];
    done_is_plain(last);
    // The blocks go on from all states of the translation.
    assert(translation_meaning::continues(blocks, last.program.func_names, last)) by {
        statement_meaning::longer_same(last, last);
        reveal(translation_meaning::longer);
    }
    translation_meaning::continues_before(blocks, last.program.func_names, g3, last);
    assert(translation_meaning::continues(blocks, names, g3));
    translation_meaning::continues_from(blocks, names, g2, g3);
    assert(translation_meaning::continues(blocks, g1.program.func_names, g1));
    // The parameters.
    assert(g.program.global_names.len() <= usize::MAX);
    assert(statement_meaning::placed(own, g0)) by {
        reveal(statement_meaning::placed);
    }
    assert(statement_meaning::agree(g0.scopes, nothing, st.vars)) by {
        reveal(statement_meaning::agree);
    }
    let n1 = params_walk(
        m,
        own,
        blocks,
        g1.program.func_names,
        k,
        g,
        g0,
        nothing,
        st,
        f.params,
        0,
        Seq::empty(),
    );
    let start = SpotV { block: 0, at: 0, state: st };
    assert(translation_meaning::here(g0, st) == start);
    let t = translation_meaning::walked(m, own, blocks, start, n1).state;
    // The body.
    let env = arguments(m, g, f, sigs);
    statement_meaning::placed_on(own, g1, g2);
    assert(statement_meaning::stands(own, k, g, g2));
    assert(translation_meaning::here(g2, t) == translation_meaning::here(g1, t));
    let n2 = statement_meaning::items_walk(
        m,
        own,
        calls,
        blocks,
        names,
        k,
        g,
        g2,
        env,
        t,
        f.body,
        0,
        rounds,
    );
    translation_meaning::walked_on(m, own, blocks, start, n1, n2);
    let c = translation_meaning::walked(m, own, blocks, start, n1 + n2);
    let flow = statement_meaning::all_carried_out(
        m,
        calls,
        g,
        g2,
        env,
        st.world,
        f.body,
        0,
        rounds,
    );
    if let Some(r) = returned(f, flow) {
        let v = r->Returned_1;
        if flow is Next {
            let i = if g3.ret_type is Void {
                InstV::Ret { value: None }
            } else {
                InstV::Ret { value: Some(IrOperand::Int(0)) }
            };
            translation_meaning::emit_grows(g3, i);
            statement_meaning::stands_next(blocks, last.program.func_names, g3, last, i);
        }
        assert(statement_meaning::at_return(m, blocks, c, v));
        assert(translation_blocks::block_ends(blocks[0]));
        let fuel = walk_returns(m, own, blocks, 0, 0, st, n1 + n2, v);
        outcome_from_start(m, own, blocks, 0, from, st, fuel);
        allocs_keep_outcome(m, own, blocks, last.b.pending, 0, from, st, fuel);
        assert(meaning::outcome(m, own, h.program.funcs.last().blocks, 0, from, st, fuel) == r);
    }
}

// ── Programs ─────────────────────────────────────────────────────────────────

/// The state of a translation before the functions from the `n`th item on.
pub open spec fn before(items: Seq<GlobalItemV>, n: int) -> Result<GenV, ErrorView> {
    match translate::signatures(translate::start(), items, 0) {
        Err(e) => Err(e),
        Ok(g) => translate::functions(g, items.take(n), 0),
    }
}

/// The variables that are new after a state of a translation.
pub open spec fn new_variables(g: GenV) -> Set<usize> {
    Set::new(|x: usize| x >= g.program.global_names.len())
}

/// The functions of a program are translated one after the other.
proof fn functions_split(g: GenV, items: Seq<GlobalItemV>, k: int, n: int)
    requires
        0 <= k <= n <= items.len(),
        translate::functions(g, items, k) is Ok,
    ensures
        translate::functions(g, items.take(n), k) matches Ok(h) && translate::functions(h, items, n)
            == translate::functions(g, items, k),
    decreases n - k,
{
    if k < n {
        match items[k] {
            GlobalItemV::FuncDef(f) => functions_split(
                translate::func(g, f)->Ok_0,
                items,
                k + 1,
                n,
            ),
            _ => functions_split(g, items, k + 1, n),
        }
    }
}

/// A function is put behind those before it.
proof fn func_is_last(g: GenV, f: FuncDefV)
    ensures
        translate::func(g, f) matches Ok(h) ==> h.program.funcs.len() > 0
            && h.program.funcs.drop_last() == g.program.funcs,
{
    if translate::func(g, f) is Ok {
        let g0 = translate::enter(g, f);
        assert(translation_blocks::open_at(g0)) by {
            reveal(translation_blocks::tidy);
        }
        translation_blocks::params_tidy(g0, f.params, 0, Seq::empty());
        let (g1, sigs) = translate::params(g0, f.params, 0, Seq::empty())->Ok_0;
        translation_blocks::lib_block_apart(g1, f.body, 0);
        let g2 = translate::lib_block(g1, f.body, 0);
        translation_blocks::same_blocks(g1, g2);
        translation_blocks::block_tidy(g2, f.body, 0);
        let h = translate::func(g, f)->Ok_0;
        assert(h.program.funcs.drop_last() =~= g.program.funcs);
    }
}

/// Functions stay where they are.
proof fn functions_stay(g: GenV, items: Seq<GlobalItemV>, k: int)
    ensures
        translate::functions(g, items, k) matches Ok(h) ==> g.program.funcs.len()
            <= h.program.funcs.len() && forall|i: int|
            0 <= i < g.program.funcs.len() ==> #[trigger] h.program.funcs[i] == g.program.funcs[i],
    decreases items.len() - k,
{
    if 0 <= k < items.len() {
        match items[k] {
            GlobalItemV::FuncDef(f) => {
                func_is_last(g, f);
                if let Ok(g1) = translate::func(g, f) {
                    functions_stay(g1, items, k + 1);
                    assert forall|i: int| 0 <= i < g.program.funcs.len() implies #[trigger]
                        g1.program.funcs[i] == g.program.funcs[i] by {
                        assert(g1.program.funcs.drop_last()[i] == g.program.funcs[i]);
                    }
                }
            },
            _ => functions_stay(g, items, k + 1),
        }
    }
}

/// The function that is an item of a program stands in the program behind those before it.
pub(crate) proof fn function_there(items: Seq<GlobalItemV>, n: int, f: FuncDefV)
    requires
        translate::program(items) is Ok,
        0 <= n < items.len(),
        items[n] == GlobalItemV::FuncDef(f),
    ensures
        before(items, n) is Ok,
        ({
            let g = before(items, n)->Ok_0;
            let p = translate::program(items)->Ok_0;
            &&& g.program.funcs.len() < p.funcs.len()
            &&& translate::func(g, f) matches Ok(h) && h.program.funcs.last()
                == p.funcs[g.program.funcs.len() as int]
        }),
{
    let s = translate::signatures(translate::start(), items, 0)->Ok_0;
    functions_split(s, items, 0, n);
    let g = before(items, n)->Ok_0;
    let h = translate::func(g, f)->Ok_0;
    func_is_last(g, f);
    functions_stay(h, items, n + 1);
    let i = g.program.funcs.len() as int;
    assert(h.program.funcs[i] == h.program.funcs.last());
}

/// The functions of a translated program return what their bodies say: the blocks that stand in the program for the function that is its `n`th item come to
/// the end that its body comes to. Calls do what the functions with their names do, and the element
/// at index zero of an array is where the array is.
pub proof fn translated_program_returns<W>(
    m: MachineV<W>,
    calls: Calls<W>,
    items: Seq<GlobalItemV>,
    n: int,
    f: FuncDefV,
    from: usize,
    st: StateV<W>,
    rounds: nat,
)
    requires
        translate::program(items) is Ok,
        0 <= n < items.len(),
        items[n] == GlobalItemV::FuncDef(f),
        before(items, n) matches Ok(g) && func_well_named(g, f) && (translate::func(
            g,
            f,
        ) matches Ok(h) ==> {
            &&& h.program.func_names.len() <= usize::MAX
            &&& translation_meaning::called(m, calls, h.program.func_names)
            &&& translation_meaning::starts_at_zero(m)
        }),
    ensures
        ({
            let g = before(items, n)->Ok_0;
            let p = translate::program(items)->Ok_0;
            let code = p.funcs[g.program.funcs.len() as int];
            &&& g.program.funcs.len() < p.funcs.len()
            &&& returned(
                f,
                statement_meaning::all_carried_out(
                    m,
                    calls,
                    g,
                    body_start(g, f),
                    arguments(m, g, f, code.params),
                    st.world,
                    f.body,
                    0,
                    rounds,
                ),
            ) matches Some(r) ==> exists|fuel: nat|
                #[trigger] meaning::outcome(m, new_variables(g), code.blocks, 0, from, st, fuel)
                    == r
        }),
{
    let g = before(items, n)->Ok_0;
    function_there(items, n, f);
    translation_flow::translated_is_plain(items);
    translation_links::globals_are_named(items, items.take(n));
    translated_function_returns(m, new_variables(g), calls, g, f, from, st, rounds);
}

} // verus!

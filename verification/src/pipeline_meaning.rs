//! What the passes of the compiler, one after the other, leave of the meaning of a function.

use crate::ast::{FuncDefV, GlobalItemV};
use crate::cfg;
use crate::codegen;
use crate::forwarding_meaning;
use crate::function_meaning;
use crate::ir::{self, FuncV, InstV, ProgV};
use crate::links;
use crate::live_lowering;
use crate::meaning::{self, MachineV, StateV};
use crate::numbering_meaning;
use crate::opt::inline::Inline;
use crate::opt::{self, IrFuncPass, IrProgramPass, StandardPass};
use crate::pass_blocks;
use crate::pass_meaning;
use crate::promoted_form;
use crate::promotion;
use crate::promotion_meaning;
use crate::promotion_values;
use crate::statement_meaning;
use crate::thinning;
use crate::translate;
use crate::translation_blocks;
use crate::translation_flow;
use crate::translation_links;
use crate::translation_meaning::{self, Calls};
use vstd::prelude::*;

verus! {

/// Whether a function is as passes take it and leave it.
pub open spec fn sound(f: FuncV) -> bool {
    f.blocks.len() <= usize::MAX && translation_blocks::func_ends(f) && thinning::in_form(f.blocks)
}

/// A pass leaves what becomes of a function, and the form that passes take.
proof fn pass_keeps_outcomes<W>(
    m: MachineV<W>,
    own: Set<usize>,
    pass: StandardPass,
    f: FuncV,
    b: int,
    from: usize,
    s: StateV<W>,
    fuel: nat,
)
    requires
        sound(f),
    ensures
        sound(pass.applied(f)),
        meaning::outcome(m, own, pass.applied(f).blocks, b, from, s, fuel) == meaning::outcome(
            m,
            own,
            f.blocks,
            b,
            from,
            s,
            fuel,
        ),
{
    pass_blocks::pass_keeps_form(pass, f);
    assert forall|k: int| 0 <= k < f.blocks.len() implies (#[trigger] f.blocks[k]).instrs.len() > 0
        && ir::terminator(f.blocks[k].instrs.last()) by {
        assert(translation_blocks::block_ends(f.blocks[k]));
        let n = f.blocks[k].instrs.len() - 1;
        assert(ir::terminator(f.blocks[k].instrs[n]));
    }
    match pass {
        StandardPass::ConstFold => {
            thinning::folding_keeps_form(f);
            pass_meaning::folding_keeps_outcomes(m, own, f, b, from, s, fuel);
        },
        StandardPass::DeadCodeElim => {
            thinning::elimination_keeps_form(f);
            pass_meaning::elimination_keeps_outcomes(m, own, f, b, from, s, s, fuel);
        },
        StandardPass::Gvn => {
            thinning::numbering_keeps_form(f);
            numbering_meaning::numbering_keeps_outcomes(m, own, f, b, from, s, s, fuel);
        },
    }
}

proof fn func_round_keeps_outcomes<W>(
    m: MachineV<W>,
    own: Set<usize>,
    ps: Seq<StandardPass>,
    k: int,
    f: FuncV,
    flag: bool,
    b: int,
    from: usize,
    s: StateV<W>,
    fuel: nat,
)
    requires
        sound(f),
    ensures
        sound(opt::func_round(ps, k, (f, flag)).0),
        meaning::outcome(
            m,
            own,
            opt::func_round(ps, k, (f, flag)).0.blocks,
            b,
            from,
            s,
            fuel,
        ) == meaning::outcome(m, own, f.blocks, b, from, s, fuel),
    decreases ps.len() - k,
{
    if 0 <= k < ps.len() {
        pass_keeps_outcomes(m, own, ps[k], f, b, from, s, fuel);
        func_round_keeps_outcomes(
            m,
            own,
            ps,
            k + 1,
            ps[k].applied(f),
            flag || ps[k].changes(f),
            b,
            from,
            s,
            fuel,
        );
    }
}

/// The flag of a round does not matter to functions.
proof fn round_of_each(ps: Seq<StandardPass>, i: int, funcs: Seq<FuncV>, flag: bool, x: int) -> (before:
    bool)
    requires
        0 <= i <= funcs.len(),
        0 <= x < funcs.len(),
    ensures
        opt::funcs_round(ps, i, (funcs, flag)).0.len() == funcs.len(),
        opt::funcs_round(ps, i, (funcs, flag)).0[x] == if x < i {
            funcs[x]
        } else {
            opt::func_round(ps, 0, (funcs[x], before)).0
        },
    decreases funcs.len() - i,
{
    if i < funcs.len() {
        let r = opt::func_round(ps, 0, (funcs[i], flag));
        let next = funcs.update(i, r.0);
        let later = round_of_each(ps, i + 1, next, r.1, x);
        if x == i {
            flag
        } else {
            later
        }
    } else {
        flag
    }
}

proof fn func_round_keeps_names(ps: Seq<StandardPass>, k: int, f: FuncV, flag: bool)
    ensures
        opt::func_round(ps, k, (f, flag)).0.name == f.name,
    decreases ps.len() - k,
{
    if 0 <= k < ps.len() {
        func_round_keeps_names(ps, k + 1, ps[k].applied(f), flag || ps[k].changes(f));
    }
}

/// Rounds of passes leave the names of functions.
proof fn rounds_keep_names(ps: Seq<StandardPass>, p: ProgV, n: nat, x: int)
    requires
        0 <= x < p.funcs.len(),
    ensures
        ({
            let q = opt::rounds(ps, Seq::<Inline>::empty(), p, n);
            &&& q.func_names == p.func_names
            &&& q.funcs.len() == p.funcs.len()
            &&& q.funcs[x].name == p.funcs[x].name
        }),
    decreases n,
{
    if n > 0 {
        let none = Seq::<Inline>::empty();
        assert(opt::program_round(none, 0, (p, false)) == (p, false));
        let r = opt::round(ps, none, p);
        let before = round_of_each(ps, 0, p.funcs, false, x);
        func_round_keeps_names(ps, 0, p.funcs[x], before);
        if r.1 {
            rounds_keep_names(ps, r.0, (n - 1) as nat, x);
        }
    }
}

/// Rounds of passes leave what becomes of a function.
proof fn rounds_keep_outcomes<W>(
    m: MachineV<W>,
    own: Set<usize>,
    ps: Seq<StandardPass>,
    p: ProgV,
    n: nat,
    x: int,
    b: int,
    from: usize,
    s: StateV<W>,
    fuel: nat,
)
    requires
        0 <= x < p.funcs.len(),
        sound(p.funcs[x]),
    ensures
        ({
            let q = opt::rounds(ps, Seq::<Inline>::empty(), p, n);
            &&& q.funcs.len() == p.funcs.len()
            &&& sound(q.funcs[x])
            &&& meaning::outcome(m, own, q.funcs[x].blocks, b, from, s, fuel) == meaning::outcome(
                m,
                own,
                p.funcs[x].blocks,
                b,
                from,
                s,
                fuel,
            )
        }),
    decreases n,
{
    if n > 0 {
        let none = Seq::<Inline>::empty();
        assert(opt::program_round(none, 0, (p, false)) == (p, false));
        let r = opt::round(ps, none, p);
        let before = round_of_each(ps, 0, p.funcs, false, x);
        func_round_keeps_outcomes(m, own, ps, 0, p.funcs[x], before, b, from, s, fuel);
        if r.1 {
            rounds_keep_outcomes(m, own, ps, r.0, (n - 1) as nat, x, b, from, s, fuel);
        }
    }
}

/// What follows the promotion of variables leaves what becomes of a function: all rounds of passes,
/// and the lowering of phis.
pub proof fn finishing_keeps_outcomes<W>(
    m: MachineV<W>,
    own: Set<usize>,
    p: ProgV,
    x: int,
    from: usize,
    s: StateV<W>,
    fuel: nat,
)
    requires
        codegen::finished(p) is Ok,
        0 <= x < p.funcs.len(),
        sound(p.funcs[x]),
    ensures
        ({
            let q = codegen::finished(p)->Ok_0;
            &&& q.funcs.len() == p.funcs.len()
            &&& meaning::outcome(m, own, q.funcs[x].blocks, 0, from, s, fuel) == meaning::outcome(
                m,
                own,
                p.funcs[x].blocks,
                0,
                from,
                s,
                fuel,
            )
        }),
{
    rounds_keep_outcomes(
        m,
        own,
        codegen::func_passes(),
        p,
        opt::MAX_ROUNDS as nat,
        x,
        0,
        from,
        s,
        fuel,
    );
    let f = codegen::optimized(p).funcs[x];
    let q = codegen::with_names(codegen::optimized(p));
    assert(q.funcs[x] == f);
    assert(promotion::lowering_room(q.funcs[x]));
    let live = choose|live: Seq<Set<usize>>| live_lowering::kept_apart(f.blocks, live);
    live_lowering::lowering_keeps_live_outcomes(m, own, f, live, 0, from, s, fuel);
    promotion_meaning::no_phis_entered(m, s, f.blocks[0].instrs, from);
}

// ── From the tree on ─────────────────────────────────────────────────────────

/// Calls of a translated program are not inlined.
proof fn translated_stays(items: Seq<GlobalItemV>)
    ensures
        translate::program(items) matches Ok(p) ==> p.func_names.len() <= usize::MAX
            ==> codegen::inlining().applied(p) == p,
{
    if let Ok(p) = translate::program(items) {
        translation_links::translated_is_linked(items);
        if p.func_names.len() <= usize::MAX {
            assert forall|c: int| 0 <= c < p.funcs.len() implies opt::inline::no_calls(
                p,
                (#[trigger] p.funcs[c]).blocks,
            ) by {
                let blocks = p.funcs[c].blocks;
                assert forall|b: int| 0 <= b < blocks.len() implies opt::inline::no_calls_in(
                    p,
                    (#[trigger] blocks[b]).instrs,
                ) by {
                    let instrs = blocks[b].instrs;
                    assert forall|i: int, k: int|
                        #![trigger instrs[i], p.funcs[k]]
                        0 <= i < instrs.len() && 0 <= k < p.funcs.len() implies !opt::inline::is_call_to(
                        instrs[i],
                        p.funcs[k].name,
                    ) by {
                        assert(p.funcs[c].blocks[b].instrs[i] == instrs[i]);
                    }
                }
            }
            opt::inline::nothing_to_inline(p, codegen::inlining().max_instrs);
        }
    }
}

/// Nothing leads to the entry of a function that no branch goes to.
proof fn entry_has_no_preds(f: FuncV)
    requires
        0 < f.blocks.len() <= usize::MAX,
        links::entry_not_target(f),
        translation_blocks::func_ends(f),
    ensures
        cfg::preds(f.blocks, 0).len() == 0,
{
    let preds = cfg::preds(f.blocks, 0);
    if preds.len() > 0 {
        let p = preds[0];
        cfg::edges_have_two_ends(f.blocks, f.blocks.len() as int, p, 0);
        assert(preds.contains(p));
        let labels = cfg::exits(f.blocks[p as int]);
        let k = thinning::position_has_label(f.blocks, labels, 0);
        cfg::label_position_is_last(f.blocks, labels[k]);
        let instrs = f.blocks[p as int].instrs;
        assert(links::goes_to(f.blocks[p as int].instrs[instrs.len() - 1], labels[k]));
    }
}

/// A translated function comes to the same end when its variables have been promoted, if SSA
/// values are used where their definitions dominate.
proof fn promoting_keeps_outcomes<W>(
    m: MachineV<W>,
    own: Set<usize>,
    items: Seq<GlobalItemV>,
    x: int,
    from: usize,
    s: StateV<W>,
    fuel: nat,
)
    requires
        translate::program(items) is Ok,
        0 <= x < translate::program(items)->Ok_0.funcs.len(),
        ({
            let f = translate::program(items)->Ok_0.funcs[x];
            &&& f.blocks.len() <= usize::MAX
            &&& promotion::room(f)
            &&& promotion_values::used_below(f.blocks)
            &&& forall|g: usize| #[trigger]
                promotion::promotable(f.blocks).contains(g) ==> own.contains(g) && s.vars[g]
                    == m.undef
        }),
        m.undef == 0,
    ensures
        ({
            let f = translate::program(items)->Ok_0.funcs[x];
            meaning::outcome(m, own, promotion::promoted(f).0.blocks, 0, from, s, fuel)
                == meaning::outcome(m, own, f.blocks, 0, from, s, fuel)
        }),
{
    let p = translate::program(items)->Ok_0;
    let f = p.funcs[x];
    translation_links::translated_is_linked(items);
    translation_blocks::translated_blocks_end(items);
    assert(translation_blocks::func_ends(p.funcs[x]));
    assert(links::entry_not_target(p.funcs[x]));
    assert(links::func_linked(links::sizes(p), p.funcs[x]));
    assert(translation_blocks::no_phis(p.funcs[x].blocks));
    assert forall|k: int| 0 <= k < f.blocks.len() implies (#[trigger] f.blocks[k]).instrs.len() > 0
        && ir::terminator(f.blocks[k].instrs.last()) by {
        assert(translation_blocks::block_ends(f.blocks[k]));
        let n = f.blocks[k].instrs.len() - 1;
        assert(ir::terminator(f.blocks[k].instrs[n]));
    }
    if f.blocks.len() >= 2 {
        entry_has_no_preds(f);
        promotion_meaning::promotion_keeps_outcomes(m, own, f, from, s, fuel);
    } else {
        let instrs = f.blocks[0].instrs;
        let n = instrs.len() - 1;
        assert(ir::terminator(f.blocks[0].instrs.last()));
        assert(instrs.last() is Ret) by {
            assert(links::insts_linked(links::sizes(p), f.blocks, f.blocks[0].instrs));
            assert(links::inst_linked(links::sizes(p), f.blocks, f.blocks[0].instrs[n]));
            match instrs.last() {
                InstV::Jump { target } => {
                    assert(links::goes_to(f.blocks[0].instrs[n], target));
                },
                InstV::Br { then_bb, .. } => {
                    assert(links::goes_to(f.blocks[0].instrs[n], then_bb));
                },
                _ => {},
            }
        }
        assert(numbering_meaning::used_after(instrs)) by {
            assert forall|i: int, j: int, l: usize|
                0 <= i <= j < instrs.len() && !(instrs[i] is Phi)
                    && #[trigger] numbering_meaning::defines(instrs[j], l) implies !(
            #[trigger] numbering_meaning::uses(instrs[i], l)) by {
                if numbering_meaning::uses(instrs[i], l) {
                    assert(numbering_meaning::defines(f.blocks[0].instrs[j], l));
                    assert(numbering_meaning::uses(f.blocks[0].instrs[i], l));
                }
            }
        }
        let names = promotion::promotable(f.blocks);
        assert forall|i: int| 0 <= i < names.len() implies own.contains(#[trigger] names[i])
            && s.vars[names[i]] == 0 by {
            assert(names.contains(names[i]));
        }
        forwarding_meaning::promotion_keeps_outcome(m, own, f, from, s, fuel);
    }
}

/// A translated function is in the form that passes take once its variables have been promoted,
/// if SSA values are used where their definitions dominate and all blocks can be reached.
proof fn promoted_is_sound(items: Seq<GlobalItemV>, x: int)
    requires
        translate::program(items) is Ok,
        0 <= x < translate::program(items)->Ok_0.funcs.len(),
        ({
            let f = translate::program(items)->Ok_0.funcs[x];
            &&& f.blocks.len() <= usize::MAX
            &&& promotion::room(f)
            &&& promotion_values::used_below(f.blocks)
            &&& promoted_form::all_reachable(f)
        }),
    ensures
        sound(promotion::promoted(translate::program(items)->Ok_0.funcs[x]).0),
{
    let p = translate::program(items)->Ok_0;
    let f = p.funcs[x];
    translation_links::translated_is_linked(items);
    translation_blocks::translated_blocks_end(items);
    assert(translation_blocks::func_ends(p.funcs[x]));
    assert(links::entry_not_target(p.funcs[x]));
    assert(translation_blocks::no_phis(p.funcs[x].blocks));
    assert(numbering_meaning::defined_once(p.funcs[x].blocks));
    if f.blocks.len() >= 2 {
        entry_has_no_preds(f);
        promoted_form::promotion_leaves_form(f);
    } else {
        promoted_form::used_below_after(f.blocks, 0);
        promoted_form::forwarding_leaves_form(f);
    }
}

/// A compiled function comes to the same end as the function that the tree was translated to, in
/// as many blocks, on the same machine: through the promotion of its variables, all rounds of passes
/// and the lowering of phis. Nothing is inlined, since no call of a translated program carries the
/// index of a function. The variables that are promoted are out of reach from outside and start at
/// zero, as what has no value does.
pub proof fn compiling_keeps_outcomes<W>(
    m: MachineV<W>,
    own: Set<usize>,
    items: Seq<GlobalItemV>,
    x: int,
    from: usize,
    s: StateV<W>,
    fuel: nat,
)
    requires
        translate::program(items) is Ok,
        codegen::compiled(items) is Ok,
        translate::program(items)->Ok_0.func_names.len() <= usize::MAX,
        0 <= x < translate::program(items)->Ok_0.funcs.len(),
        forall|g: usize| #[trigger]
            promotion::promotable(translate::program(items)->Ok_0.funcs[x].blocks).contains(g)
                ==> own.contains(g) && s.vars[g] == m.undef,
        m.undef == 0,
    ensures
        ({
            let p = translate::program(items)->Ok_0;
            let q = codegen::compiled(items)->Ok_0;
            &&& q.funcs.len() == p.funcs.len()
            &&& q.func_names == p.func_names
            &&& q.funcs[x].name == p.funcs[x].name
            &&& meaning::outcome(m, own, q.funcs[x].blocks, 0, from, s, fuel) == meaning::outcome(
                m,
                own,
                p.funcs[x].blocks,
                0,
                from,
                s,
                fuel,
            )
        }),
{
    let p = translate::program(items)->Ok_0;
    let f = p.funcs[x];
    translated_stays(items);
    translation_flow::translated_is_plain(items);
    assert(codegen::all_room(p.funcs));
    assert(promotion::room(p.funcs[x]));
    promoting_keeps_outcomes(m, own, items, x, from, s, fuel);
    promoted_is_sound(items, x);
    let a = ProgV { funcs: codegen::promoted_funcs(p.funcs), ..p };
    assert(a.funcs[x] == promotion::promoted(f).0);
    finishing_keeps_outcomes(m, own, a, x, from, s, fuel);
    rounds_keep_names(codegen::func_passes(), a, opt::MAX_ROUNDS as nat, x);
}

/// A compiled program does what the source says: the compiled blocks of the function that is the
/// `n`th item of the program come to the end that its body comes to, with the world as the body
/// leaves it. Calls do what the functions with their names do, the element at index zero of an array
/// is where the array is, and the variables of the function start at zero. Nothing is said of a body
/// that uses a variable without a value.
pub proof fn compiled_program_returns<W>(
    m: MachineV<W>,
    calls: Calls<W>,
    items: Seq<GlobalItemV>,
    n: int,
    f: FuncDefV,
    from: usize,
    st: StateV<W>,
    rounds: nat,
)
    requires
        translate::program(items) is Ok,
        codegen::compiled(items) is Ok,
        translate::program(items)->Ok_0.func_names.len() <= usize::MAX,
        0 <= n < items.len(),
        items[n] == GlobalItemV::FuncDef(f),
        function_meaning::before(items, n) matches Ok(g) && function_meaning::func_well_named(g, f)
            && (translate::func(g, f) matches Ok(h) ==> {
            &&& h.program.func_names.len() <= usize::MAX
            &&& translation_meaning::called(m, calls, h.program.func_names)
            &&& translation_meaning::starts_at_zero(m)
        }) && forall|v: usize|
            function_meaning::new_variables(g).contains(v) ==> #[trigger] st.vars[v] == 0,
        m.undef == 0,
    ensures
        ({
            let g = function_meaning::before(items, n)->Ok_0;
            let p = translate::program(items)->Ok_0;
            let q = codegen::compiled(items)->Ok_0;
            let x = g.program.funcs.len() as int;
            &&& x < q.funcs.len() == p.funcs.len()
            &&& function_meaning::returned(
                f,
                statement_meaning::all_carried_out(
                    m,
                    calls,
                    g,
                    function_meaning::body_start(g, f),
                    function_meaning::arguments(m, g, f, p.funcs[x].params),
                    st.world,
                    f.body,
                    0,
                    rounds,
                ),
            ) matches Some(r) ==> exists|fuel: nat|
                #[trigger] meaning::outcome(
                    m,
                    function_meaning::new_variables(g),
                    q.funcs[x].blocks,
                    0,
                    from,
                    st,
                    fuel,
                ) == r
        }),
{
    let g = function_meaning::before(items, n)->Ok_0;
    let p = translate::program(items)->Ok_0;
    let q = codegen::compiled(items)->Ok_0;
    let x = g.program.funcs.len() as int;
    let own = function_meaning::new_variables(g);
    let flow = statement_meaning::all_carried_out(
        m,
        calls,
        g,
        function_meaning::body_start(g, f),
        function_meaning::arguments(m, g, f, p.funcs[x].params),
        st.world,
        f.body,
        0,
        rounds,
    );
    function_meaning::function_there(items, n, f);
    translation_flow::promotable_is_new(g, f);
    assert forall|v: usize| #[trigger]
        promotion::promotable(p.funcs[x].blocks).contains(v) implies own.contains(v) && st.vars[v]
        == m.undef by {
        assert(own.contains(v));
    }
    compiling_keeps_outcomes(m, own, items, x, from, st, 0);
    function_meaning::translated_program_returns(m, calls, items, n, f, from, st, rounds);
    if let Some(r) = function_meaning::returned(f, flow) {
        let fuel = choose|fuel: nat|
            #[trigger] meaning::outcome(m, own, p.funcs[x].blocks, 0, from, st, fuel) == r;
        compiling_keeps_outcomes(m, own, items, x, from, st, fuel);
        assert(meaning::outcome(m, own, q.funcs[x].blocks, 0, from, st, fuel) == r);
    }
}

} // verus!

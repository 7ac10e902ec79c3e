//! What a syntax tree is translated to refers only to what is there.

use crate::ast::{
    BinaryOp, BlockItemV, ConstDefV, DeclV, ExprV, FuncDefV, FuncParamV, GlobalItemV, StmtV, VarDefV,
};
use crate::error::ErrorView;
use crate::ir::{self, BlockV, FuncV, InitV, InstV, IrArithOp, IrCmpOp, IrOperand, IrType, ProgV};
use crate::ir_builder;
use crate::links::{self, SizesV};
use crate::numbering_meaning;
use crate::scopes;
use crate::text;
use crate::translate::{self, GenV, SymV};
use crate::translation_blocks;
use vstd::prelude::*;

verus! {

// ── The state of a translation ───────────────────────────────────────────────

/// The sizes that the tables have once those of the builder are merged.
spec fn sizes(g: GenV) -> SizesV {
    SizesV {
        globals: (g.program.global_names.len() + g.b.names.global_names.len()) as int,
        labels: (g.program.block_names.len() + g.b.names.block_names.len()) as int,
        funcs: g.program.func_names.len() as int,
    }
}

/// The label of the entry block.
spec fn entry(g: GenV) -> usize {
    g.b.blocks[0].label
}

/// What a name stands for has a name.
spec fn sym_fits(n: SizesV, s: SymV) -> bool {
    match s {
        SymV::Const(_) => true,
        SymV::Var(k) => k < n.globals,
        SymV::Array(k, _) => k < n.globals,
        SymV::PtrArray(k) => k < n.globals,
        SymV::NdParam { name, .. } => name < n.globals,
    }
}

/// What the names of a scope stand for has names.
spec fn map_fits(n: SizesV, m: Map<Seq<char>, SymV>) -> bool {
    forall|name: Seq<char>| m.contains_key(name) ==> sym_fits(n, #[trigger] m[name])
}

/// A label that may be gone to: not the entry, and there is a block for it, or will be as it is
/// among those in `ok`.
spec fn reachable(g: GenV, ok: Set<usize>, t: usize) -> bool {
    t > entry(g) && t < sizes(g).labels && (ok.contains(t) || links::has_label(g.b.blocks, t))
}

/// An instruction goes only to labels that may be gone to, and calls by an index of its own.
spec fn settles(g: GenV, ok: Set<usize>, i: InstV) -> bool {
    &&& forall|t: usize| #[trigger] links::goes_to(i, t) ==> reachable(g, ok, t)
    &&& i matches InstV::Call { func, .. } ==> (sizes(g).funcs <= usize::MAX ==> func
        > g.b.func_name)
    &&& !(i is Phi)
    &&& forall|l: usize| #[trigger] numbering_meaning::defines(i, l) ==> l < g.b.local_counter
}

/// Whether an instruction of some blocks defines an SSA value.
spec fn has_value(blocks: Seq<BlockV>, l: usize) -> bool {
    exists|b: int, i: int|
        0 <= b < blocks.len() && 0 <= i < blocks[b].instrs.len()
            && #[trigger] numbering_meaning::defines(blocks[b].instrs[i], l)
}

/// Functions as translation makes them have no phis, and define no SSA value twice.
pub open spec fn funcs_plain(funcs: Seq<FuncV>) -> bool {
    forall|k: int|
        0 <= k < funcs.len() ==> translation_blocks::no_phis((#[trigger] funcs[k]).blocks)
            && numbering_meaning::defined_once(funcs[k].blocks)
}

/// Whether the index of a function and those of its calls are below an index.
spec fn names_below(f: FuncV, k: int) -> bool {
    &&& f.name < k
    &&& forall|b: int, i: int|
        #![trigger f.blocks[b].instrs[i]]
        0 <= b < f.blocks.len() && 0 <= i < f.blocks[b].instrs.len()
            && f.blocks[b].instrs[i] is Call ==> f.blocks[b].instrs[i]->Call_func < k
}

/// No call has the index of a function.
pub open spec fn calls_apart(funcs: Seq<FuncV>) -> bool {
    forall|a: int, c: int, b: int, i: int|
        #![trigger funcs[a], funcs[c].blocks[b].instrs[i]]
        0 <= a < funcs.len() && 0 <= c < funcs.len() && 0 <= b < funcs[c].blocks.len() && 0 <= i
            < funcs[c].blocks[b].instrs.len() && funcs[c].blocks[b].instrs[i] is Call
            ==> funcs[c].blocks[b].instrs[i]->Call_func != funcs[a].name
}

/// The translation of a function refers to what is there, but for the labels in `ok`.
#[verifier::opaque]
spec fn sound(g: GenV, ok: Set<usize>) -> bool {
    let n = sizes(g);
    &&& g.b.blocks.len() > 0
    &&& g.scopes.len() > 0
    &&& g.b.global_counter == n.globals
    &&& g.b.block_counter == n.labels
    &&& g.b.names.func_names.len() == 0
    &&& g.b.func_name < n.funcs
    &&& forall|k: int| 0 <= k < g.b.blocks.len() ==> (#[trigger] g.b.blocks[k]).label < n.labels
    &&& forall|b: int, i: int|
        #![trigger g.b.blocks[b].instrs[i]]
        0 <= b < g.b.blocks.len() && 0 <= i < g.b.blocks[b].instrs.len() ==> links::inst_fits(
            n,
            g.b.blocks[b].instrs[i],
        ) && settles(g, ok, g.b.blocks[b].instrs[i])
    &&& forall|k: int| 0 <= k < g.b.pending.len() ==> (#[trigger] g.b.pending[k]).0 < n.globals
    &&& forall|s: int| 0 <= s < g.scopes.len() ==> map_fits(n, #[trigger] g.scopes[s])
    &&& map_fits(n, g.globals)
    &&& forall|k: int|
        0 <= k < g.loops.len() ==> reachable(g, ok, (#[trigger] g.loops[k]).0) && reachable(
            g,
            ok,
            g.loops[k].1,
        )
    &&& links::decls_linked(n, g.program)
    &&& links::funcs_linked(n, g.program.funcs)
    &&& links::entries_not_targets(g.program.funcs)
    &&& numbering_meaning::defined_once(g.b.blocks)
    &&& funcs_plain(g.program.funcs)
    &&& n.funcs <= usize::MAX ==> calls_apart(g.program.funcs) && forall|i: int|
        0 <= i < g.program.funcs.len() ==> names_below(
            #[trigger] g.program.funcs[i],
            g.b.func_name as int,
        )
}

/// A later state: tables and blocks have only grown, and scopes and loops are the same.
spec fn later(g: GenV, h: GenV) -> bool {
    &&& links::within(sizes(g), sizes(h))
    &&& g.b.blocks.len() > 0 && h.b.blocks.len() > 0
    &&& entry(g) == entry(h)
    &&& g.scopes.len() == h.scopes.len()
    &&& g.loops == h.loops
    &&& forall|t: usize|
        links::has_label(g.b.blocks, t) ==> #[trigger] links::has_label(h.b.blocks, t)
}

// ── Single steps ─────────────────────────────────────────────────────────────

/// A state whose tables have grown, and that has otherwise the same code.
proof fn sound_more(g: GenV, h: GenV, ok: Set<usize>)
    requires
        sound(g, ok),
        links::within(sizes(g), sizes(h)),
        h.b.blocks == g.b.blocks,
        h.scopes.len() > 0,
        h.b.global_counter == sizes(h).globals,
        h.b.block_counter == sizes(h).labels,
        h.b.names.func_names == g.b.names.func_names,
        h.b.func_name == g.b.func_name,
        g.b.local_counter <= h.b.local_counter,
        h.loops == g.loops,
        h.program.funcs == g.program.funcs,
        forall|k: int|
            0 <= k < h.b.pending.len() ==> (#[trigger] h.b.pending[k]).0 < sizes(h).globals,
        forall|s: int| 0 <= s < h.scopes.len() ==> map_fits(sizes(h), #[trigger] h.scopes[s]),
        map_fits(sizes(h), h.globals),
        links::decls_linked(sizes(h), h.program),
    ensures
        sound(h, ok),
        sound(h, ok) && g.scopes.len() == h.scopes.len() ==> later(g, h),
{
    reveal(sound);
    let n = sizes(g);
    let m = sizes(h);
    assert forall|b: int, i: int|
        #![trigger h.b.blocks[b].instrs[i]]
        0 <= b < h.b.blocks.len() && 0 <= i < h.b.blocks[b].instrs.len() implies links::inst_fits(
        m,
        h.b.blocks[b].instrs[i],
    ) && settles(h, ok, h.b.blocks[b].instrs[i]) by {
        let i0 = g.b.blocks[b].instrs[i];
        links::inst_fits_more(n, m, i0);
        assert forall|t: usize| #[trigger] links::goes_to(i0, t) implies reachable(h, ok, t) by {
            assert(reachable(g, ok, t));
        }
    }
    assert forall|k: int| 0 <= k < h.loops.len() implies reachable(h, ok, (#[trigger] h.loops[k]).0)
        && reachable(h, ok, h.loops[k].1) by {
        assert(reachable(g, ok, g.loops[k].0) && reachable(g, ok, g.loops[k].1));
    }
    assert forall|i: int| 0 <= i < h.program.funcs.len() implies links::func_linked(
        m,
        #[trigger] h.program.funcs[i],
    ) by {
        assert(links::func_linked(n, g.program.funcs[i]));
        links::func_linked_more(n, m, g.program.funcs[i]);
    }
}

/// The maps of a state fit tables that are larger.
proof fn maps_more(g: GenV, ok: Set<usize>, m: SizesV)
    requires
        sound(g, ok),
        links::within(sizes(g), m),
    ensures
        forall|s: int| 0 <= s < g.scopes.len() ==> map_fits(m, #[trigger] g.scopes[s]),
        map_fits(m, g.globals),
        links::decls_linked(m, g.program),
        forall|k: int| 0 <= k < g.b.pending.len() ==> (#[trigger] g.b.pending[k]).0 < m.globals,
        g.scopes.len() > 0,
        g.b.blocks.len() > 0,
        g.b.global_counter == sizes(g).globals,
        g.b.block_counter == sizes(g).labels,
        entry(g) < sizes(g).labels,
{
    reveal(sound);
    assert forall|s: int| 0 <= s < g.scopes.len() implies map_fits(m, #[trigger] g.scopes[s]) by {
        assert(map_fits(sizes(g), g.scopes[s]));
        assert forall|name: Seq<char>| g.scopes[s].contains_key(name) implies sym_fits(
            m,
            #[trigger] g.scopes[s][name],
        ) by {
            assert(sym_fits(sizes(g), g.scopes[s][name]));
        }
    }
    assert forall|name: Seq<char>| g.globals.contains_key(name) implies sym_fits(
        m,
        #[trigger] g.globals[name],
    ) by {
        assert(sym_fits(sizes(g), g.globals[name]));
    }
}

/// More labels may be allowed.
proof fn sound_allows(g: GenV, ok: Set<usize>, more: Set<usize>)
    requires
        sound(g, ok),
        ok.subset_of(more),
    ensures
        sound(g, more),
{
    reveal(sound);
    assert forall|t: usize| #[trigger] reachable(g, ok, t) implies reachable(g, more, t) by {}
    assert forall|b: int, i: int|
        #![trigger g.b.blocks[b].instrs[i]]
        0 <= b < g.b.blocks.len() && 0 <= i < g.b.blocks[b].instrs.len() implies settles(
        g,
        more,
        g.b.blocks[b].instrs[i],
    ) by {
        assert(settles(g, ok, g.b.blocks[b].instrs[i]));
    }
}

/// Labels that blocks have been started for need no allowance.
proof fn sound_settled(g: GenV, more: Set<usize>, ok: Set<usize>)
    requires
        sound(g, more),
        forall|t: usize|
            more.contains(t) ==> ok.contains(t) || #[trigger] links::has_label(g.b.blocks, t),
    ensures
        sound(g, ok),
{
    reveal(sound);
    assert forall|t: usize| #[trigger] reachable(g, more, t) implies reachable(g, ok, t) by {
        if more.contains(t) && !ok.contains(t) {
            assert(links::has_label(g.b.blocks, t));
        }
    }
    assert forall|b: int, i: int|
        #![trigger g.b.blocks[b].instrs[i]]
        0 <= b < g.b.blocks.len() && 0 <= i < g.b.blocks[b].instrs.len() implies settles(
        g,
        ok,
        g.b.blocks[b].instrs[i],
    ) by {
        let i0 = g.b.blocks[b].instrs[i];
        assert(settles(g, more, i0));
        assert forall|t: usize| #[trigger] links::goes_to(i0, t) implies reachable(g, ok, t) by {
            assert(reachable(g, more, t));
        }
    }
}

proof fn emit_sound(g: GenV, ok: Set<usize>, i: InstV)
    requires
        sound(g, ok),
        links::inst_fits(sizes(g), i),
        settles(g, ok, i),
        forall|l: usize| #[trigger]
            numbering_meaning::defines(i, l) ==> !has_value(g.b.blocks, l),
    ensures
        sound(g.emit(i), ok),
        later(g, g.emit(i)),
        sizes(g.emit(i)) == sizes(g),
        g.emit(i).scopes == g.scopes,
        g.emit(i).globals == g.globals,
{
    reveal(sound);
    let h = g.emit(i);
    let n = sizes(g);
    ir_builder::block_position_is_first(g.b.blocks, g.b.cur_block);
    assert(h.b.blocks.len() == g.b.blocks.len());
    assert forall|k: int| 0 <= k < h.b.blocks.len() implies (#[trigger] h.b.blocks[k]).label
        == g.b.blocks[k].label by {}
    assert forall|t: usize| links::has_label(g.b.blocks, t) implies #[trigger] links::has_label(
        h.b.blocks,
        t,
    ) by {
        let k = choose|k: int| 0 <= k < g.b.blocks.len() && (#[trigger] g.b.blocks[k]).label == t;
        assert(h.b.blocks[k].label == t);
    }
    assert forall|b: int, j: int|
        #![trigger h.b.blocks[b].instrs[j]]
        0 <= b < h.b.blocks.len() && 0 <= j < h.b.blocks[b].instrs.len() implies links::inst_fits(
        n,
        h.b.blocks[b].instrs[j],
    ) && settles(h, ok, h.b.blocks[b].instrs[j]) by {
        let i1 = h.b.blocks[b].instrs[j];
        if j < g.b.blocks[b].instrs.len() {
            assert(i1 == g.b.blocks[b].instrs[j]);
        } else {
            assert(i1 == i);
        }
        assert(settles(g, ok, i1));
        assert forall|t: usize| #[trigger] links::goes_to(i1, t) implies reachable(h, ok, t) by {
            assert(reachable(g, ok, t));
        }
    }
    assert forall|k: int| 0 <= k < h.loops.len() implies reachable(h, ok, (#[trigger] h.loops[k]).0)
        && reachable(h, ok, h.loops[k].1) by {
        assert(reachable(g, ok, g.loops[k].0) && reachable(g, ok, g.loops[k].1));
    }
    assert forall|b: int, j: int, c: int, k: int, l: usize|
        0 <= b < h.b.blocks.len() && 0 <= j < h.b.blocks[b].instrs.len() && 0 <= c
            < h.b.blocks.len() && 0 <= k < h.b.blocks[c].instrs.len()
            && #[trigger] numbering_meaning::defines(h.b.blocks[b].instrs[j], l)
            && #[trigger] numbering_meaning::defines(h.b.blocks[c].instrs[k], l) implies b == c && j
        == k by {
        let old = g.b.blocks;
        let at = ir_builder::block_position(old, g.b.cur_block);
        let first = j < old[b].instrs.len();
        let second = k < old[c].instrs.len();
        if first {
            assert(h.b.blocks[b].instrs[j] == old[b].instrs[j]);
            assert(numbering_meaning::defines(old[b].instrs[j], l));
        }
        if second {
            assert(h.b.blocks[c].instrs[k] == old[c].instrs[k]);
            assert(numbering_meaning::defines(old[c].instrs[k], l));
        }
        if !first {
            assert(at == Some(b) && j == old[b].instrs.len());
            assert(numbering_meaning::defines(i, l));
        }
        if !second {
            assert(at == Some(c) && k == old[c].instrs.len());
            assert(numbering_meaning::defines(i, l));
        }
        if first != second {
            assert(has_value(old, l));
        }
    }
}

proof fn start_sound(g: GenV, ok: Set<usize>, label: usize)
    requires
        sound(g, ok),
        label < sizes(g).labels,
    ensures
        sound(g.start(label), ok),
        later(g, g.start(label)),
        sizes(g.start(label)) == sizes(g),
        links::has_label(g.start(label).b.blocks, label),
{
    reveal(sound);
    let h = g.start(label);
    let n = g.b.blocks.len() as int;
    assert(h.b.blocks[n].label == label);
    assert forall|t: usize| links::has_label(g.b.blocks, t) implies #[trigger] links::has_label(
        h.b.blocks,
        t,
    ) by {
        let k = choose|k: int| 0 <= k < g.b.blocks.len() && (#[trigger] g.b.blocks[k]).label == t;
        assert(h.b.blocks[k].label == t);
    }
    assert forall|b: int, j: int|
        #![trigger h.b.blocks[b].instrs[j]]
        0 <= b < h.b.blocks.len() && 0 <= j < h.b.blocks[b].instrs.len() implies links::inst_fits(
        sizes(h),
        h.b.blocks[b].instrs[j],
    ) && settles(h, ok, h.b.blocks[b].instrs[j]) by {
        let i1 = g.b.blocks[b].instrs[j];
        assert(settles(g, ok, i1));
        assert forall|t: usize| #[trigger] links::goes_to(i1, t) implies reachable(h, ok, t) by {
            assert(reachable(g, ok, t));
        }
    }
    assert forall|k: int| 0 <= k < h.loops.len() implies reachable(h, ok, (#[trigger] h.loops[k]).0)
        && reachable(h, ok, h.loops[k].1) by {
        assert(reachable(g, ok, g.loops[k].0) && reachable(g, ok, g.loops[k].1));
    }
}

/// The operands of an instruction that is given a destination are its own.
proof fn def_sound(g: GenV, ok: Set<usize>, i: InstV)
    requires
        sound(g, ok),
        links::inst_fits(sizes(g), i),
        !(i is Br) && !(i is Jump) && !(i is Alloc) && !(i is Phi),
        i matches InstV::Call { func, .. } ==> (sizes(g).funcs <= usize::MAX ==> func
            > g.b.func_name),
        ir::inst_dest(i) is Some,
    ensures
        match g.def(i) {
            Ok((h, v)) => sound(h, ok) && later(g, h) && links::op_fits(sizes(h), v) && sizes(h)
                == sizes(g),
            Err(_) => true,
        },
{
    if g.b.tmp_left() {
        let h = GenV { b: g.b.with_tmp(), ..g };
        maps_more(g, ok, sizes(g));
        sound_more(g, h, ok);
        let i1 = ir::with_dest(i, g.b.local_counter);
        assert(ir::inst_operands(i1) =~= ir::inst_operands(i));
        assert(!has_value(g.b.blocks, g.b.local_counter)) by {
            reveal(sound);
        }
        emit_sound(h, ok, i1);
    }
}

proof fn label_sound(g: GenV, ok: Set<usize>)
    requires
        sound(g, ok),
    ensures
        match g.label() {
            Ok((h, l)) => sound(h, ok) && later(g, h) && entry(h) < l < sizes(h).labels,
            Err(_) => true,
        },
{
    if g.b.block_counter < usize::MAX {
        let h = GenV { b: g.b.with_label(), ..g };
        maps_more(g, ok, sizes(h));
        sound_more(g, h, ok);
    }
}

proof fn labels_sound(g: GenV, ok: Set<usize>)
    requires
        sound(g, ok),
    ensures
        match g.labels() {
            Ok((h, (a, b, c))) => sound(h, ok) && later(g, h) && entry(h) < a < sizes(h).labels
                && entry(h) < b < sizes(h).labels && entry(h) < c < sizes(h).labels,
            Err(_) => true,
        },
{
    label_sound(g, ok);
    if let Ok((g1, _)) = g.label() {
        label_sound(g1, ok);
        if let Ok((g2, _)) = g1.label() {
            label_sound(g2, ok);
        }
    }
}

proof fn pend_sound(g: GenV, ok: Set<usize>, name: usize, ty: IrType)
    requires
        sound(g, ok),
        name < sizes(g).globals,
    ensures
        sound(g.pend(name, ty), ok),
        later(g, g.pend(name, ty)),
        sizes(g.pend(name, ty)) == sizes(g),
{
    let h = g.pend(name, ty);
    maps_more(g, ok, sizes(g));
    assert forall|k: int| 0 <= k < h.b.pending.len() implies (#[trigger] h.b.pending[k]).0
        < sizes(h).globals by {
        if k < g.b.pending.len() {
            assert(h.b.pending[k] == g.b.pending[k]);
        }
    }
    sound_more(g, h, ok);
}

proof fn short_circuit_sound(g: GenV, ok: Set<usize>)
    requires
        sound(g, ok),
    ensures
        match g.short_circuit() {
            Ok((h, n)) => sound(h, ok) && later(g, h) && n < sizes(h).globals,
            Err(_) => true,
        },
{
    if g.b.sc_left() {
        let h = GenV { b: g.b.with_sc(), ..g };
        maps_more(g, ok, sizes(h));
        sound_more(g, h, ok);
        pend_sound(h, ok, g.b.global_counter, IrType::I32);
    }
}

/// A position in a list is below its length.
proof fn position_below(names: Seq<Seq<char>>, name: Seq<char>)
    ensures
        text::position(names, name) matches Some(i) ==> i < names.len(),
    decreases names.len(),
{
    if names.len() > 0 {
        position_below(names.drop_last(), name);
    }
}

proof fn intern_sound(g: GenV, ok: Set<usize>, name: Seq<char>)
    requires
        sound(g, ok),
    ensures
        match g.intern(name) {
            Ok((h, n)) => sound(h, ok) && later(g, h) && n < sizes(h).globals,
            Err(_) => true,
        },
{
    if g.b.global_counter < usize::MAX {
        let h = GenV { b: g.b.with_global(name), ..g };
        maps_more(g, ok, sizes(h));
        position_below(g.b.names.global_names, ir::global_mark(name));
        sound_more(g, h, ok);
    }
}

proof fn bind_sound(g: GenV, ok: Set<usize>, name: Seq<char>, s: SymV)
    requires
        sound(g, ok),
        sym_fits(sizes(g), s),
    ensures
        sound(g.bind(name, s), ok),
        later(g, g.bind(name, s)),
        sizes(g.bind(name, s)) == sizes(g),
{
    let h = g.bind(name, s);
    maps_more(g, ok, sizes(g));
    assert forall|k: int| 0 <= k < h.scopes.len() implies map_fits(
        sizes(h),
        #[trigger] h.scopes[k],
    ) by {
        assert(map_fits(sizes(g), g.scopes[k]));
        if k == g.scopes.len() - 1 {
            let m = g.scopes[k].insert(name, s);
            assert(h.scopes[k] == m);
            assert forall|x: Seq<char>| m.contains_key(x) implies sym_fits(
                sizes(h),
                #[trigger] m[x],
            ) by {
                if x != name {
                    assert(sym_fits(sizes(g), g.scopes[k][x]));
                }
            }
        } else {
            assert(h.scopes[k] == g.scopes[k]);
        }
    }
    sound_more(g, h, ok);
}

/// A state that differs only in how often names have been used.
proof fn counts_sound(g: GenV, ok: Set<usize>, counts: Map<Seq<char>, usize>)
    requires
        sound(g, ok),
    ensures
        sound(GenV { counts, ..g }, ok),
        later(g, GenV { counts, ..g }),
{
    maps_more(g, ok, sizes(g));
    sound_more(g, GenV { counts, ..g }, ok);
}

proof fn mangle_sound(g: GenV, ok: Set<usize>, name: Seq<char>)
    requires
        sound(g, ok),
    ensures
        match g.mangle(name) {
            Ok((h, _)) => sound(h, ok) && later(g, h),
            Err(_) => true,
        },
{
    counts_sound(g, ok, g.counts.insert(name, (g.count(name) + 1) as usize));
}

proof fn local_name_sound(g: GenV, ok: Set<usize>, name: Seq<char>)
    requires
        sound(g, ok),
    ensures
        match g.local_name(name) {
            Ok((h, _)) => sound(h, ok) && later(g, h),
            Err(_) => true,
        },
{
    mangle_sound(g, ok, name);
    if let Ok((g1, _)) = g.mangle(name) {
        mangle_sound(g1, ok, name);
    }
}

proof fn lookup_in_fits(
    n: SizesV,
    inner: Seq<Map<Seq<char>, SymV>>,
    globals: Map<Seq<char>, SymV>,
    name: Seq<char>,
)
    requires
        forall|s: int| 0 <= s < inner.len() ==> map_fits(n, #[trigger] inner[s]),
        map_fits(n, globals),
    ensures
        scopes::lookup_in(inner, globals, name) matches Some(s) ==> sym_fits(n, s),
    decreases inner.len(),
{
    if inner.len() > 0 {
        assert(map_fits(n, inner[inner.len() - 1]));
        let front = inner.drop_last();
        assert forall|s: int| 0 <= s < front.len() implies map_fits(n, #[trigger] front[s]) by {
            assert(front[s] == inner[s]);
        }
        lookup_in_fits(n, front, globals, name);
    }
}

proof fn lookup_fits(g: GenV, ok: Set<usize>, name: Seq<char>)
    requires
        sound(g, ok),
    ensures
        g.lookup(name) matches Some(s) ==> sym_fits(sizes(g), s),
{
    maps_more(g, ok, sizes(g));
    lookup_in_fits(sizes(g), g.scopes, g.globals, name);
}

// ── Expressions ──────────────────────────────────────────────────────────────

/// A step leads to a later state that refers to what is there, and gives an operand with a name.
spec fn gives(g: GenV, ok: Set<usize>, r: translate::Step<IrOperand>) -> bool {
    match r {
        Ok((h, v)) => sound(h, ok) && later(g, h) && links::op_fits(sizes(h), v),
        Err(_) => true,
    }
}

/// A step leads to a later state that refers to what is there.
spec fn leads(g: GenV, ok: Set<usize>, r: Result<GenV, ErrorView>) -> bool {
    match r {
        Ok(h) => sound(h, ok) && later(g, h),
        Err(_) => true,
    }
}

proof fn one_fits(n: SizesV, a: IrOperand)
    requires
        links::op_fits(n, a),
    ensures
        links::ops_fit(n, seq![a]),
{
}

proof fn two_fit(n: SizesV, a: IrOperand, b: IrOperand)
    requires
        links::op_fits(n, a),
        links::op_fits(n, b),
    ensures
        links::ops_fit(n, seq![a, b]),
{
}

/// A load into a new temporary.
proof fn load_sound(g: GenV, ok: Set<usize>, src: IrOperand)
    requires
        sound(g, ok),
        links::op_fits(sizes(g), src),
    ensures
        gives(g, ok, g.def(InstV::Load { dest: 0, src })),
{
    one_fits(sizes(g), src);
    def_sound(g, ok, InstV::Load { dest: 0, src });
}

/// An instruction on two operands that gives a new temporary.
proof fn pair_sound(g: GenV, ok: Set<usize>, i: InstV, a: IrOperand, b: IrOperand)
    requires
        sound(g, ok),
        links::op_fits(sizes(g), a),
        links::op_fits(sizes(g), b),
        ir::inst_operands(i) == seq![a, b],
        i is Arith || i is Icmp || i is GetPtr || i is GetElemPtr,
    ensures
        gives(g, ok, g.def(i)),
{
    two_fit(sizes(g), a, b);
    def_sound(g, ok, i);
}

proof fn store_sound(g: GenV, ok: Set<usize>, value: IrOperand, ptr: IrOperand)
    requires
        sound(g, ok),
        links::op_fits(sizes(g), value),
        links::op_fits(sizes(g), ptr),
    ensures
        sound(g.emit(InstV::Store { value, ptr }), ok),
        later(g, g.emit(InstV::Store { value, ptr })),
        sizes(g.emit(InstV::Store { value, ptr })) == sizes(g),
{
    two_fit(sizes(g), value, ptr);
    emit_sound(g, ok, InstV::Store { value, ptr });
}

proof fn jump_sound(g: GenV, ok: Set<usize>, target: usize)
    requires
        sound(g, ok),
        reachable(g, ok, target),
    ensures
        sound(g.emit(InstV::Jump { target }), ok),
        later(g, g.emit(InstV::Jump { target })),
        sizes(g.emit(InstV::Jump { target })) == sizes(g),
{
    emit_sound(g, ok, InstV::Jump { target });
}

proof fn br_sound(g: GenV, ok: Set<usize>, cond: IrOperand, then_bb: usize, else_bb: usize)
    requires
        sound(g, ok),
        links::op_fits(sizes(g), cond),
        reachable(g, ok, then_bb),
        reachable(g, ok, else_bb),
    ensures
        sound(g.emit(InstV::Br { cond, then_bb, else_bb }), ok),
        later(g, g.emit(InstV::Br { cond, then_bb, else_bb })),
        sizes(g.emit(InstV::Br { cond, then_bb, else_bb })) == sizes(g),
{
    one_fits(sizes(g), cond);
    emit_sound(g, ok, InstV::Br { cond, then_bb, else_bb });
}

proof fn element_sound(g: GenV, ok: Set<usize>, p: IrOperand, whole: bool, size: i32)
    requires
        sound(g, ok),
        links::op_fits(sizes(g), p),
    ensures
        gives(g, ok, translate::element(g, p, whole, size)),
{
    load_sound(g, ok, p);
    pair_sound(
        g,
        ok,
        InstV::GetElemPtr { dest: 0, ptr: p, index: IrOperand::Int(0), elem_size: size },
        p,
        IrOperand::Int(0),
    );
}

proof fn array_step_sound(g: GenV, ok: Set<usize>, base: IrOperand, index: IrOperand, size: i32)
    requires
        sound(g, ok),
        links::op_fits(sizes(g), base),
        links::op_fits(sizes(g), index),
    ensures
        gives(g, ok, translate::array_step(g, base, index, size)),
{
    let i = InstV::GetElemPtr { dest: 0, ptr: base, index: IrOperand::Int(0), elem_size: size };
    pair_sound(g, ok, i, base, IrOperand::Int(0));
    if let Ok((g1, p)) = g.def(i) {
        pair_sound(
            g1,
            ok,
            InstV::GetPtr { dest: 0, ptr: p, index, elem_size: size },
            p,
            index,
        );
    }
}

proof fn index_step_sound(
    g: GenV,
    ok: Set<usize>,
    pointer: bool,
    base: IrOperand,
    index: IrOperand,
    size: i32,
)
    requires
        sound(g, ok),
        links::op_fits(sizes(g), base),
        links::op_fits(sizes(g), index),
    ensures
        gives(g, ok, translate::index_step(g, pointer, base, index, size)),
{
    if pointer {
        pair_sound(
            g,
            ok,
            InstV::GetPtr { dest: 0, ptr: base, index, elem_size: size },
            base,
            index,
        );
    } else {
        array_step_sound(g, ok, base, index, size);
    }
}

proof fn test_sound(g: GenV, ok: Set<usize>, v: IrOperand)
    requires
        sound(g, ok),
        links::op_fits(sizes(g), v),
    ensures
        gives(g, ok, translate::test(g, v)),
{
    pair_sound(
        g,
        ok,
        InstV::Icmp { dest: 0, op: IrCmpOp::Ne, lhs: v, rhs: IrOperand::Int(0) },
        v,
        IrOperand::Int(0),
    );
}

proof fn decided_sound(g: GenV, ok: Set<usize>, value: i32, sc: usize, end: usize)
    requires
        sound(g, ok),
        sc < sizes(g).globals,
        reachable(g, ok, end),
    ensures
        sound(translate::decided(g, value, sc, end), ok),
        later(g, translate::decided(g, value, sc, end)),
{
    store_sound(g, ok, IrOperand::Int(value), IrOperand::Global(sc));
    let g1 = g.emit(InstV::Store { value: IrOperand::Int(value), ptr: IrOperand::Global(sc) });
    jump_sound(g1, ok, end);
}

/// The table of functions may grow.
proof fn funcs_more(g: GenV, ok: Set<usize>, name: Seq<char>)
    requires
        sound(g, ok),
    ensures
        ({
            let h = GenV {
                program: ProgV { func_names: g.program.func_names.push(name), ..g.program },
                ..g
            };
            sound(h, ok) && later(g, h)
        }),
{
    let h = GenV {
        program: ProgV { func_names: g.program.func_names.push(name), ..g.program },
        ..g
    };
    maps_more(g, ok, sizes(h));
    sound_more(g, h, ok);
}

proof fn call_sound(g: GenV, ok: Set<usize>, name: Seq<char>, args: Seq<IrOperand>)
    requires
        sound(g, ok),
        links::ops_fit(sizes(g), args),
    ensures
        gives(g, ok, translate::call(g, name, args)),
{
    let func = g.program.func_names.len() as usize;
    let g1 = GenV {
        program: ProgV { func_names: g.program.func_names.push(name), ..g.program },
        ..g
    };
    funcs_more(g, ok, name);
    assert(func < sizes(g1).funcs);
    assert(sizes(g1).funcs <= usize::MAX ==> func > g.b.func_name) by {
        reveal(sound);
    }
    if translate::call_ret(g, name) == crate::ast::Type::Void {
        emit_sound(g1, ok, InstV::Call { dest: None, func, args });
    } else {
        def_sound(g1, ok, InstV::Call { dest: Some(0), func, args });
    }
}

proof fn name_value_sound(g: GenV, ok: Set<usize>, name: Seq<char>)
    requires
        sound(g, ok),
    ensures
        gives(g, ok, translate::name_value(g, name)),
{
    maps_more(g, ok, sizes(g));
    lookup_fits(g, ok, name);
    match g.lookup(name) {
        Some(SymV::Var(n)) => load_sound(g, ok, IrOperand::Global(n)),
        Some(SymV::Array(n, dims)) => pair_sound(
            g,
            ok,
            InstV::GetElemPtr {
                dest: 0,
                ptr: IrOperand::Global(n),
                index: IrOperand::Int(0),
                elem_size: translate::size_from(dims, 1),
            },
            IrOperand::Global(n),
            IrOperand::Int(0),
        ),
        _ => {},
    }
}

proof fn expr_sound(g: GenV, ok: Set<usize>, e: ExprV)
    requires
        sound(g, ok),
    ensures
        gives(g, ok, translate::expr(g, e)),
    decreases e, 2int,
{
    maps_more(g, ok, sizes(g));
    match e {
        ExprV::Int(_) => {},
        ExprV::LVal(name) => name_value_sound(g, ok, name),
        ExprV::Unary { op, expr: x } => {
            expr_sound(g, ok, *x);
            if let Ok((g1, v)) = translate::expr(g, *x) {
                pair_sound(
                    g1,
                    ok,
                    InstV::Arith { dest: 0, op: IrArithOp::Sub, lhs: IrOperand::Int(0), rhs: v },
                    IrOperand::Int(0),
                    v,
                );
                pair_sound(
                    g1,
                    ok,
                    InstV::Icmp { dest: 0, op: IrCmpOp::Eq, lhs: v, rhs: IrOperand::Int(0) },
                    v,
                    IrOperand::Int(0),
                );
            }
        },
        ExprV::Binary { op, lhs, rhs } => {
            if op == BinaryOp::And || op == BinaryOp::Or {
                short_circuit_expr_sound(g, ok, e);
            } else {
                expr_sound(g, ok, *lhs);
                if let Ok((g1, l)) = translate::expr(g, *lhs) {
                    expr_sound(g1, ok, *rhs);
                    if let Ok((g2, r)) = translate::expr(g1, *rhs) {
                        pair_sound(g2, ok, translate::binary_inst(op, l, r), l, r);
                    }
                }
            }
        },
        ExprV::Call { name, args } => {
            call_args_sound(g, ok, args, 0, Seq::empty());
            if let Ok((g1, vals)) = translate::call_args(g, args, 0, Seq::empty()) {
                call_sound(g1, ok, name, vals);
            }
        },
        ExprV::Index { .. } => index_value_sound(g, ok, e),
        ExprV::InitList(_) => {},
        ExprV::Asm(code) => {
            def_sound(g, ok, InstV::Asm { dest: Some(0), code });
        },
    }
}

proof fn short_circuit_expr_sound(g: GenV, ok: Set<usize>, e: ExprV)
    requires
        sound(g, ok),
        e matches ExprV::Binary { op, .. } && (op == BinaryOp::And || op == BinaryOp::Or),
    ensures
        gives(g, ok, translate::expr(g, e)),
    decreases e, 0int,
{
    if let ExprV::Binary { op, lhs, rhs } = e {
        short_circuit_sound(g, ok);
        if let Ok((g1, sc)) = g.short_circuit() {
            expr_sound(g1, ok, *lhs);
            if let Ok((g2, l)) = translate::expr(g1, *lhs) {
                test_sound(g2, ok, l);
                maps_more(g2, ok, sizes(g2));
                if let Ok((g3, cond)) = translate::branch_cond(g2, l) {
                    labels_sound(g3, ok);
                    if let Ok((g4, (a, b, end))) = g3.labels() {
                        let more = ok.insert(a).insert(b).insert(end);
                        sound_allows(g4, ok, more);
                        br_sound(g4, more, cond, a, b);
                        let h = g4.emit(InstV::Br { cond, then_bb: a, else_bb: b });
                        start_sound(h, more, a);
                        let h1 = h.start(a);
                        let g5 = if op == BinaryOp::And {
                            h1
                        } else {
                            translate::decided(h1, 1, sc, end).start(b)
                        };
                        if op == BinaryOp::Or {
                            decided_sound(h1, more, 1, sc, end);
                            start_sound(translate::decided(h1, 1, sc, end), more, b);
                        }
                        expr_sound(g5, more, *rhs);
                        if let Ok((g6, r)) = translate::expr(g5, *rhs) {
                            test_sound(g6, more, r);
                            if let Ok((g7, t)) = translate::test(g6, r) {
                                store_sound(g7, more, t, IrOperand::Global(sc));
                                let h2 = g7.emit(
                                    InstV::Store { value: t, ptr: IrOperand::Global(sc) },
                                );
                                jump_sound(h2, more, end);
                                let g8 = h2.emit(InstV::Jump { target: end });
                                let g9 = if op == BinaryOp::And {
                                    translate::decided(g8.start(b), 0, sc, end)
                                } else {
                                    g8
                                };
                                if op == BinaryOp::And {
                                    start_sound(g8, more, b);
                                    decided_sound(g8.start(b), more, 0, sc, end);
                                }
                                start_sound(g9, more, end);
                                let g10 = g9.start(end);
                                assert(links::has_label(g10.b.blocks, a));
                                assert(links::has_label(g10.b.blocks, b));
                                sound_settled(g10, more, ok);
                                load_sound(g10, ok, IrOperand::Global(sc));
                            }
                        }
                    }
                }
            }
        }
    }
}

proof fn call_args_sound(
    g: GenV,
    ok: Set<usize>,
    args: Seq<ExprV>,
    k: int,
    done: Seq<IrOperand>,
)
    requires
        sound(g, ok),
        links::ops_fit(sizes(g), done),
    ensures
        match translate::call_args(g, args, k, done) {
            Ok((h, vals)) => sound(h, ok) && later(g, h) && links::ops_fit(sizes(h), vals),
            Err(_) => true,
        },
    decreases args, args.len() - k,
{
    maps_more(g, ok, sizes(g));
    if 0 <= k < args.len() {
        expr_sound(g, ok, args[k]);
        if let Ok((g1, v)) = translate::expr(g, args[k]) {
            let next = done.push(v);
            assert forall|j: int| 0 <= j < next.len() implies links::op_fits(
                sizes(g1),
                #[trigger] next[j],
            ) by {
                if j < done.len() {
                    assert(links::op_fits(sizes(g), done[j]));
                }
            }
            call_args_sound(g1, ok, args, k + 1, next);
        }
    }
}

proof fn index_value_sound(g: GenV, ok: Set<usize>, e: ExprV)
    requires
        sound(g, ok),
    ensures
        gives(g, ok, translate::index_value(g, e)),
    decreases e, 1int,
{
    if let ExprV::Index { array, index } = e {
        if translate::is_param(translate::base_symbol(g, e)) {
            param_ptr_sound(g, ok, e);
            if let Ok((g1, p)) = translate::param_ptr(g, e) {
                element_sound(
                    g1,
                    ok,
                    p,
                    translate::index_count(e) >= translate::total_dims(g, e),
                    translate::size_from(
                        translate::base_dims(g, e),
                        translate::index_count(e),
                    ),
                );
            }
        } else {
            let dims = translate::base_dims(g, *array);
            let depth = translate::index_count(*array);
            expr_sound(g, ok, *index);
            if let Ok((g1, i)) = translate::expr(g, *index) {
                base_sound(g1, ok, *array);
                if let Ok((g2, b)) = translate::base(g1, *array) {
                    let pointer = *array is LVal && translate::is_ptr(
                        translate::base_symbol(g, *array),
                    );
                    let size = translate::size_from(dims, depth + 1);
                    index_step_sound(g2, ok, pointer, b, i, size);
                    if let Ok((g3, p)) = translate::index_step(g2, pointer, b, i, size) {
                        element_sound(
                            g3,
                            ok,
                            p,
                            1 + depth >= translate::total_dims(g, *array),
                            translate::size_from(dims, depth + 2),
                        );
                    }
                }
            }
        }
    }
}

proof fn param_ptr_sound(g: GenV, ok: Set<usize>, e: ExprV)
    requires
        sound(g, ok),
    ensures
        gives(g, ok, translate::param_ptr(g, e)),
    decreases e, 0int,
{
    if let ExprV::Index { array, index } = e {
        match *array {
            ExprV::LVal(name) => {
                lookup_fits(g, ok, name);
                if let Some(SymV::NdParam { name: n, dims }) = g.lookup(name) {
                    expr_sound(g, ok, *index);
                    if let Ok((g1, i)) = translate::expr(g, *index) {
                        pair_sound(
                            g1,
                            ok,
                            InstV::GetPtr {
                                dest: 0,
                                ptr: IrOperand::Global(n),
                                index: i,
                                elem_size: translate::size_from(dims, 0),
                            },
                            IrOperand::Global(n),
                            i,
                        );
                    }
                }
            },
            _ => {
                param_ptr_sound(g, ok, *array);
                if let Ok((g1, p)) = translate::param_ptr(g, *array) {
                    expr_sound(g1, ok, *index);
                    if let Ok((g2, i)) = translate::expr(g1, *index) {
                        pair_sound(
                            g2,
                            ok,
                            InstV::GetElemPtr {
                                dest: 0,
                                ptr: p,
                                index: i,
                                elem_size: translate::size_from(
                                    translate::base_dims(g, *array),
                                    translate::index_count(*array),
                                ),
                            },
                            p,
                            i,
                        );
                    }
                }
            },
        }
    }
}

proof fn base_sound(g: GenV, ok: Set<usize>, e: ExprV)
    requires
        sound(g, ok),
    ensures
        gives(g, ok, translate::base(g, e)),
    decreases e, 0int,
{
    maps_more(g, ok, sizes(g));
    match e {
        ExprV::LVal(name) => lookup_fits(g, ok, name),
        ExprV::Index { array, index } => {
            expr_sound(g, ok, *index);
            if let Ok((g1, i)) = translate::expr(g, *index) {
                base_sound(g1, ok, *array);
                if let Ok((g2, b)) = translate::base(g1, *array) {
                    array_step_sound(
                        g2,
                        ok,
                        b,
                        i,
                        translate::size_from(
                            translate::base_dims(g, *array),
                            translate::index_count(*array) + 1,
                        ),
                    );
                }
            }
        },
        _ => {},
    }
}

// ── Declarations ─────────────────────────────────────────────────────────────

proof fn inner_ptr_sound(g: GenV, ok: Set<usize>, p: IrOperand, dims: Seq<i32>, k: int)
    requires
        sound(g, ok),
        links::op_fits(sizes(g), p),
    ensures
        gives(g, ok, translate::inner_ptr(g, p, dims, k)),
    decreases dims.len() - k,
{
    maps_more(g, ok, sizes(g));
    if k < dims.len() {
        let i = InstV::GetElemPtr {
            dest: 0,
            ptr: p,
            index: IrOperand::Int(0),
            elem_size: translate::size_from(dims, k + 1),
        };
        pair_sound(g, ok, i, p, IrOperand::Int(0));
        if let Ok((g1, q)) = g.def(i) {
            inner_ptr_sound(g1, ok, q, dims, k + 1);
        }
    }
}

proof fn elem_ptr_sound(g: GenV, ok: Set<usize>, base: usize, dims: Seq<i32>, flat: i32)
    requires
        sound(g, ok),
        base < sizes(g).globals,
    ensures
        gives(g, ok, translate::elem_ptr(g, base, dims, flat)),
{
    maps_more(g, ok, sizes(g));
    if dims.len() > 0 {
        inner_ptr_sound(g, ok, IrOperand::Global(base), dims, 0);
        if let Ok((g1, p)) = translate::inner_ptr(g, IrOperand::Global(base), dims, 0) {
            pair_sound(
                g1,
                ok,
                InstV::GetPtr { dest: 0, ptr: p, index: IrOperand::Int(flat), elem_size: 4 },
                p,
                IrOperand::Int(flat),
            );
        }
    }
}

proof fn init_stores_sound(
    g: GenV,
    ok: Set<usize>,
    base: usize,
    dims: Seq<i32>,
    flat: Seq<ExprV>,
    i: int,
    n: int,
)
    requires
        sound(g, ok),
        base < sizes(g).globals,
    ensures
        leads(g, ok, translate::init_stores(g, base, dims, flat, i, n)),
    decreases n - i,
{
    maps_more(g, ok, sizes(g));
    if i < n {
        expr_sound(g, ok, flat[i]);
        if let Ok((g1, value)) = translate::expr(g, flat[i]) {
            elem_ptr_sound(g1, ok, base, dims, (i as usize) as i32);
            if let Ok((g2, p)) = translate::elem_ptr(g1, base, dims, (i as usize) as i32) {
                store_sound(g2, ok, value, p);
                init_stores_sound(
                    g2.emit(InstV::Store { value, ptr: p }),
                    ok,
                    base,
                    dims,
                    flat,
                    i + 1,
                    n,
                );
            }
        }
    }
}

proof fn array_init_sound(g: GenV, ok: Set<usize>, base: usize, dims: Seq<i32>, init: ExprV)
    requires
        sound(g, ok),
        base < sizes(g).globals,
    ensures
        leads(g, ok, translate::array_init(g, base, dims, init)),
{
    if let Ok(flat) = translate::local_flat(dims, init, Seq::empty()) {
        if let Some(t) = translate::total(dims) {
            init_stores_sound(
                g,
                ok,
                base,
                dims,
                translate::fill(flat, t as int),
                0,
                t as int,
            );
        }
    }
}

proof fn new_array_sound(
    g: GenV,
    ok: Set<usize>,
    name: Seq<char>,
    mangled: Seq<char>,
    dims: Seq<i32>,
)
    requires
        sound(g, ok),
    ensures
        match translate::new_array(g, name, mangled, dims) {
            Ok((h, n)) => sound(h, ok) && later(g, h) && n < sizes(h).globals,
            Err(_) => true,
        },
{
    intern_sound(g, ok, mangled);
    if let Ok((g1, n)) = g.intern(mangled) {
        pend_sound(g1, ok, n, translate::array_type(dims));
        bind_sound(g1.pend(n, translate::array_type(dims)), ok, name, SymV::Array(n, dims));
    }
}

proof fn const_def_sound(g: GenV, ok: Set<usize>, d: ConstDefV)
    requires
        sound(g, ok),
    ensures
        leads(g, ok, translate::const_def(g, d)),
{
    if d.dims.len() == 0 && !(d.init is InitList) {
        if let Ok(v) = translate::const_value(g, d.init) {
            bind_sound(g, ok, d.name, SymV::Const(v));
        }
    } else {
        local_name_sound(g, ok, d.name);
        if let Ok((g1, mangled)) = g.local_name(d.name) {
            if let Ok(dims) = translate::const_values(g1, d.dims) {
                new_array_sound(g1, ok, d.name, mangled, dims);
                if let Ok((g2, n)) = translate::new_array(g1, d.name, mangled, dims) {
                    array_init_sound(g2, ok, n, dims, d.init);
                }
            }
        }
    }
}

proof fn var_def_sound(g: GenV, ok: Set<usize>, d: VarDefV)
    requires
        sound(g, ok),
    ensures
        leads(g, ok, translate::var_def(g, d)),
{
    local_name_sound(g, ok, d.name);
    if let Ok((g1, mangled)) = g.local_name(d.name) {
        if d.dims.len() == 0 {
            intern_sound(g1, ok, mangled);
            if let Ok((g2, n)) = g1.intern(mangled) {
                pend_sound(g2, ok, n, IrType::I32);
                let g3 = g2.pend(n, IrType::I32);
                match d.init {
                    None => bind_sound(g3, ok, d.name, SymV::Var(n)),
                    Some(init) => {
                        expr_sound(g3, ok, init);
                        if let Ok((g4, v)) = translate::expr(g3, init) {
                            store_sound(g4, ok, v, IrOperand::Global(n));
                            bind_sound(
                                g4.emit(InstV::Store { value: v, ptr: IrOperand::Global(n) }),
                                ok,
                                d.name,
                                SymV::Var(n),
                            );
                        }
                    },
                }
            }
        } else if let Ok(dims) = translate::const_values(g1, d.dims) {
            new_array_sound(g1, ok, d.name, mangled, dims);
            if let Ok((g2, n)) = translate::new_array(g1, d.name, mangled, dims) {
                if let Some(init) = d.init {
                    array_init_sound(g2, ok, n, dims, init);
                }
            }
        }
    }
}

proof fn const_defs_sound(g: GenV, ok: Set<usize>, defs: Seq<ConstDefV>, k: int)
    requires
        sound(g, ok),
    ensures
        leads(g, ok, translate::const_defs(g, defs, k)),
    decreases defs.len() - k,
{
    maps_more(g, ok, sizes(g));
    if 0 <= k < defs.len() {
        const_def_sound(g, ok, defs[k]);
        if let Ok(g1) = translate::const_def(g, defs[k]) {
            const_defs_sound(g1, ok, defs, k + 1);
        }
    }
}

proof fn var_defs_sound(g: GenV, ok: Set<usize>, defs: Seq<VarDefV>, k: int)
    requires
        sound(g, ok),
    ensures
        leads(g, ok, translate::var_defs(g, defs, k)),
    decreases defs.len() - k,
{
    maps_more(g, ok, sizes(g));
    if 0 <= k < defs.len() {
        var_def_sound(g, ok, defs[k]);
        if let Ok(g1) = translate::var_def(g, defs[k]) {
            var_defs_sound(g1, ok, defs, k + 1);
        }
    }
}

// ── Statements ───────────────────────────────────────────────────────────────

proof fn param_target_sound(
    g: GenV,
    ok: Set<usize>,
    p: IrOperand,
    dims: Seq<i32>,
    index: Seq<ExprV>,
    k: int,
)
    requires
        sound(g, ok),
        links::op_fits(sizes(g), p),
    ensures
        gives(g, ok, translate::param_target(g, p, dims, index, k)),
    decreases index.len() - k,
{
    maps_more(g, ok, sizes(g));
    if 0 <= k < index.len() {
        expr_sound(g, ok, index[k]);
        if let Ok((g1, i)) = translate::expr(g, index[k]) {
            let step = InstV::GetElemPtr {
                dest: 0,
                ptr: p,
                index: i,
                elem_size: translate::size_from(dims, k),
            };
            pair_sound(g1, ok, step, p, i);
            if let Ok((g2, q)) = g1.def(step) {
                param_target_sound(g2, ok, q, dims, index, k + 1);
            }
        }
    }
}

proof fn array_target_sound(
    g: GenV,
    ok: Set<usize>,
    p: IrOperand,
    pointer: bool,
    dims: Seq<i32>,
    index: Seq<ExprV>,
    k: int,
)
    requires
        sound(g, ok),
        links::op_fits(sizes(g), p),
    ensures
        gives(g, ok, translate::array_target(g, p, pointer, dims, index, k)),
    decreases index.len() - k,
{
    maps_more(g, ok, sizes(g));
    if 0 <= k < index.len() {
        expr_sound(g, ok, index[k]);
        if let Ok((g1, i)) = translate::expr(g, index[k]) {
            let size = translate::size_from(dims, k + 1);
            index_step_sound(g1, ok, pointer, p, i, size);
            if let Ok((g2, q)) = translate::index_step(g1, pointer, p, i, size) {
                array_target_sound(g2, ok, q, pointer, dims, index, k + 1);
            }
        }
    }
}

proof fn store_to_sound(
    g: GenV,
    ok: Set<usize>,
    r: translate::Step<IrOperand>,
    h: GenV,
    value: IrOperand,
)
    requires
        later(g, h),
        gives(h, ok, r),
        links::op_fits(sizes(h), value),
    ensures
        leads(g, ok, translate::store_to(r, value)),
{
    if let Ok((g1, p)) = r {
        store_sound(g1, ok, value, p);
    }
}

proof fn array_assign_sound(
    g: GenV,
    ok: Set<usize>,
    name: Seq<char>,
    index: Seq<ExprV>,
    e: ExprV,
)
    requires
        sound(g, ok),
    ensures
        leads(g, ok, translate::array_assign(g, name, index, e)),
{
    lookup_fits(g, ok, name);
    expr_sound(g, ok, e);
    if let Ok((g1, v)) = translate::expr(g, e) {
        match g.lookup(name) {
            Some(SymV::NdParam { name: n, dims }) => {
                expr_sound(g1, ok, index[0]);
                if let Ok((g2, i)) = translate::expr(g1, index[0]) {
                    let step = InstV::GetPtr {
                        dest: 0,
                        ptr: IrOperand::Global(n),
                        index: i,
                        elem_size: translate::size_from(dims, 0),
                    };
                    pair_sound(g2, ok, step, IrOperand::Global(n), i);
                    if let Ok((g3, p)) = g2.def(step) {
                        param_target_sound(g3, ok, p, dims, index, 1);
                        store_to_sound(
                            g,
                            ok,
                            translate::param_target(g3, p, dims, index, 1),
                            g3,
                            v,
                        );
                    }
                }
            },
            Some(SymV::Array(n, dims)) => {
                array_target_sound(g1, ok, IrOperand::Global(n), false, dims, index, 0);
                store_to_sound(
                    g,
                    ok,
                    translate::array_target(g1, IrOperand::Global(n), false, dims, index, 0),
                    g1,
                    v,
                );
            },
            Some(SymV::PtrArray(n)) => {
                array_target_sound(g1, ok, IrOperand::Global(n), true, Seq::empty(), index, 0);
                store_to_sound(
                    g,
                    ok,
                    translate::array_target(
                        g1,
                        IrOperand::Global(n),
                        true,
                        Seq::empty(),
                        index,
                        0,
                    ),
                    g1,
                    v,
                );
            },
            _ => {},
        }
    }
}

proof fn assign_sound(g: GenV, ok: Set<usize>, name: Seq<char>, index: Seq<ExprV>, e: ExprV)
    requires
        sound(g, ok),
    ensures
        leads(g, ok, translate::assign(g, name, index, e)),
{
    if index.len() > 0 {
        array_assign_sound(g, ok, name, index, e);
    } else {
        lookup_fits(g, ok, name);
        if let Some(SymV::Var(n)) = g.lookup(name) {
            expr_sound(g, ok, e);
            if let Ok((g1, v)) = translate::expr(g, e) {
                store_sound(g1, ok, v, IrOperand::Global(n));
            }
        }
    }
}

proof fn jump_on_sound(g: GenV, ok: Set<usize>, target: usize)
    requires
        sound(g, ok),
        reachable(g, ok, target),
    ensures
        sound(translate::jump_on(g, target), ok),
        later(g, translate::jump_on(g, target)),
        sizes(translate::jump_on(g, target)) == sizes(g),
{
    maps_more(g, ok, sizes(g));
    jump_sound(g, ok, target);
}

/// A scope more, with no name in it.
proof fn enter_scope_sound(g: GenV, ok: Set<usize>)
    requires
        sound(g, ok),
    ensures
        sound(GenV { scopes: g.scopes.push(Map::empty()), ..g }, ok),
{
    let h = GenV { scopes: g.scopes.push(Map::empty()), ..g };
    maps_more(g, ok, sizes(g));
    assert forall|s: int| 0 <= s < h.scopes.len() implies map_fits(
        sizes(h),
        #[trigger] h.scopes[s],
    ) by {
        if s < g.scopes.len() {
            assert(h.scopes[s] == g.scopes[s]);
        }
    }
    sound_more(g, h, ok);
}

/// A scope less.
proof fn exit_scope_sound(g: GenV, ok: Set<usize>)
    requires
        sound(g, ok),
        g.scopes.len() > 1,
    ensures
        sound(GenV { scopes: g.scopes.drop_last(), ..g }, ok),
{
    let h = GenV { scopes: g.scopes.drop_last(), ..g };
    maps_more(g, ok, sizes(g));
    assert forall|s: int| 0 <= s < h.scopes.len() implies map_fits(
        sizes(h),
        #[trigger] h.scopes[s],
    ) by {
        assert(h.scopes[s] == g.scopes[s]);
    }
    sound_more(g, h, ok);
}

/// A state with other loops, whose labels may be gone to.
proof fn loops_sound(g: GenV, ok: Set<usize>, loops: Seq<(usize, usize)>)
    requires
        sound(g, ok),
        forall|k: int|
            0 <= k < loops.len() ==> reachable(g, ok, (#[trigger] loops[k]).0) && reachable(
                g,
                ok,
                loops[k].1,
            ),
    ensures
        sound(GenV { loops, ..g }, ok),
        sizes(GenV { loops, ..g }) == sizes(g),
{
    reveal(sound);
    let h = GenV { loops, ..g };
    assert forall|t: usize| #[trigger] reachable(g, ok, t) implies reachable(h, ok, t) by {}
    assert forall|b: int, i: int|
        #![trigger h.b.blocks[b].instrs[i]]
        0 <= b < h.b.blocks.len() && 0 <= i < h.b.blocks[b].instrs.len() implies settles(
        h,
        ok,
        h.b.blocks[b].instrs[i],
    ) by {
        assert(settles(g, ok, g.b.blocks[b].instrs[i]));
    }
}

/// The labels of loops may be gone to.
proof fn loops_reachable(g: GenV, ok: Set<usize>)
    requires
        sound(g, ok),
    ensures
        forall|k: int|
            0 <= k < g.loops.len() ==> reachable(g, ok, (#[trigger] g.loops[k]).0) && reachable(
                g,
                ok,
                g.loops[k].1,
            ),
{
    reveal(sound);
}

proof fn stmt_sound(g: GenV, ok: Set<usize>, s: StmtV)
    requires
        sound(g, ok),
    ensures
        leads(g, ok, translate::stmt(g, s)),
    decreases s, 1int,
{
    maps_more(g, ok, sizes(g));
    match s {
        StmtV::Return(None) => emit_sound(g, ok, InstV::Ret { value: None }),
        StmtV::Return(Some(e)) => {
            expr_sound(g, ok, e);
            if let Ok((g1, v)) = translate::expr(g, e) {
                one_fits(sizes(g1), v);
                emit_sound(g1, ok, InstV::Ret { value: Some(v) });
            }
        },
        StmtV::Assign { name, index, expr } => assign_sound(g, ok, name, index, expr),
        StmtV::Expr(e) => expr_sound(g, ok, e),
        StmtV::Block(items) => {
            enter_scope_sound(g, ok);
            let inner = GenV { scopes: g.scopes.push(Map::empty()), ..g };
            block_sound(inner, ok, items, 0);
            if let Ok(g1) = translate::block(inner, items, 0) {
                exit_scope_sound(g1, ok);
            }
        },
        StmtV::If { .. } => if_sound(g, ok, s),
        StmtV::While { .. } => while_sound(g, ok, s),
        StmtV::Break => {
            loops_reachable(g, ok);
            if g.loops.len() > 0 {
                jump_sound(g, ok, g.loops.last().1);
            }
        },
        StmtV::Continue => {
            loops_reachable(g, ok);
            if g.loops.len() > 0 {
                jump_sound(g, ok, g.loops.last().0);
            }
        },
        StmtV::Empty => {},
        StmtV::Asm(code) => emit_sound(g, ok, InstV::Asm { dest: None, code }),
    }
}

proof fn if_sound(g: GenV, ok: Set<usize>, s: StmtV)
    requires
        sound(g, ok),
        s is If,
    ensures
        leads(g, ok, translate::stmt(g, s)),
    decreases s, 0int,
{
    if let StmtV::If { cond, then_branch, else_branch } = s {
        expr_sound(g, ok, cond);
        if let Ok((g1, c)) = translate::expr(g, cond) {
            labels_sound(g1, ok);
            if let Ok((g2, (yes, no, end))) = g1.labels() {
                let target = if else_branch is Some {
                    no
                } else {
                    end
                };
                let some = ok.insert(yes).insert(target);
                let all = some.insert(end);
                sound_allows(g2, ok, some);
                br_sound(g2, some, c, yes, target);
                let h = g2.emit(InstV::Br { cond: c, then_bb: yes, else_bb: target });
                start_sound(h, some, yes);
                let g3 = h.start(yes);
                stmt_sound(g3, some, *then_branch);
                if let Ok(g4) = translate::stmt(g3, *then_branch) {
                    let then_ok = if g4.b.terminated {
                        some
                    } else {
                        all
                    };
                    sound_allows(g4, some, then_ok);
                    if !g4.b.terminated {
                        jump_on_sound(g4, then_ok, end);
                    }
                    let g5 = translate::jump_on(g4, end);
                    assert(sound(g5, then_ok));
                    match else_branch {
                        None => {
                            start_sound(g5, then_ok, end);
                            let g6 = g5.start(end);
                            assert(links::has_label(g6.b.blocks, yes));
                            sound_settled(g6, then_ok, ok);
                        },
                        Some(els) => {
                            start_sound(g5, then_ok, no);
                            stmt_sound(g5.start(no), then_ok, *els);
                            if let Ok(g6) = translate::stmt(g5.start(no), *els) {
                                assert(links::has_label(g6.b.blocks, yes));
                                assert(links::has_label(g6.b.blocks, no));
                                if g4.b.terminated && g6.b.terminated {
                                    sound_settled(g6, then_ok, ok);
                                } else {
                                    sound_allows(g6, then_ok, all);
                                    jump_on_sound(g6, all, end);
                                    let g7 = translate::jump_on(g6, end);
                                    start_sound(g7, all, end);
                                    let g8 = g7.start(end);
                                    assert(links::has_label(g8.b.blocks, yes));
                                    assert(links::has_label(g8.b.blocks, no));
                                    sound_settled(g8, all, ok);
                                }
                            }
                        },
                    }
                }
            }
        }
    }
}

proof fn while_sound(g: GenV, ok: Set<usize>, s: StmtV)
    requires
        sound(g, ok),
        s is While,
    ensures
        leads(g, ok, translate::stmt(g, s)),
    decreases s, 0int,
{
    if let StmtV::While { cond, body } = s {
        labels_sound(g, ok);
        if let Ok((g1, (top, inside, end))) = g.labels() {
            let more = ok.insert(top).insert(inside).insert(end);
            sound_allows(g1, ok, more);
            jump_sound(g1, more, top);
            let h = g1.emit(InstV::Jump { target: top });
            start_sound(h, more, top);
            expr_sound(h.start(top), more, cond);
            if let Ok((g2, c)) = translate::expr(h.start(top), cond) {
                br_sound(g2, more, c, inside, end);
                let g3 = g2.emit(InstV::Br { cond: c, then_bb: inside, else_bb: end });
                let loops = g3.loops.push((top, end));
                loops_reachable(g3, more);
                assert forall|k: int| 0 <= k < loops.len() implies reachable(
                    g3,
                    more,
                    (#[trigger] loops[k]).0,
                ) && reachable(g3, more, loops[k].1) by {
                    if k < g3.loops.len() {
                        assert(loops[k] == g3.loops[k]);
                    }
                }
                loops_sound(g3, more, loops);
                let inner = GenV { loops, ..g3 };
                start_sound(inner, more, inside);
                let g4 = inner.start(inside);
                stmt_sound(g4, more, *body);
                if let Ok(g5) = translate::stmt(g4, *body) {
                    assert(links::has_label(g5.b.blocks, top));
                    assert(links::has_label(g5.b.blocks, inside));
                    jump_on_sound(g5, more, top);
                    let g6 = translate::jump_on(g5, top);
                    loops_reachable(g6, more);
                    let outer = g5.loops.drop_last();
                    assert(outer =~= g.loops);
                    assert forall|k: int| 0 <= k < outer.len() implies reachable(
                        g6,
                        more,
                        (#[trigger] outer[k]).0,
                    ) && reachable(g6, more, outer[k].1) by {
                        assert(outer[k] == g6.loops[k]);
                    }
                    loops_sound(g6, more, outer);
                    let g7 = GenV { loops: outer, ..g6 };
                    start_sound(g7, more, end);
                    let g8 = g7.start(end);
                    assert(links::has_label(g8.b.blocks, top));
                    assert(links::has_label(g8.b.blocks, inside));
                    sound_settled(g8, more, ok);
                }
            }
        }
    }
}

proof fn block_sound(g: GenV, ok: Set<usize>, items: Seq<BlockItemV>, k: int)
    requires
        sound(g, ok),
    ensures
        leads(g, ok, translate::block(g, items, k)),
    decreases items, items.len() - k,
{
    maps_more(g, ok, sizes(g));
    if 0 <= k < items.len() && !g.b.terminated {
        match items[k] {
            BlockItemV::Stmt(s) => {
                stmt_sound(g, ok, s);
                if let Ok(g1) = translate::stmt(g, s) {
                    block_sound(g1, ok, items, k + 1);
                }
            },
            BlockItemV::Decl(d) => {
                match d {
                    DeclV::Const(defs) => const_defs_sound(g, ok, defs, 0),
                    DeclV::Var(defs) => var_defs_sound(g, ok, defs, 0),
                }
                if let Ok(g1) = translate::decl(g, d) {
                    block_sound(g1, ok, items, k + 1);
                }
            },
        }
    }
}

// ── Library declarations ─────────────────────────────────────────────────────

proof fn lib_call_sound(g: GenV, ok: Set<usize>, name: Seq<char>)
    requires
        sound(g, ok),
    ensures
        sound(translate::lib_call(g, name), ok),
        later(g, translate::lib_call(g, name)),
{
    let h = translate::lib_call(g, name);
    maps_more(g, ok, sizes(h));
    let old_decls = g.program.func_decls;
    assert forall|i: int| 0 <= i < h.program.func_decls.len() implies (
    #[trigger] h.program.func_decls[i]).name < sizes(h).funcs by {
        if i < old_decls.len() {
            assert(h.program.func_decls[i] == old_decls[i]);
        }
    }
    sound_more(g, h, ok);
}

proof fn lib_expr_sound(g: GenV, ok: Set<usize>, e: ExprV)
    requires
        sound(g, ok),
    ensures
        sound(translate::lib_expr(g, e), ok),
        later(g, translate::lib_expr(g, e)),
    decreases e, 0int,
{
    maps_more(g, ok, sizes(g));
    match e {
        ExprV::Call { name, .. } => lib_call_sound(g, ok, name),
        ExprV::Binary { lhs, rhs, .. } => {
            lib_expr_sound(g, ok, *lhs);
            lib_expr_sound(translate::lib_expr(g, *lhs), ok, *rhs);
        },
        ExprV::Unary { expr, .. } => lib_expr_sound(g, ok, *expr),
        ExprV::Index { array, index } => {
            lib_expr_sound(g, ok, *array);
            lib_expr_sound(translate::lib_expr(g, *array), ok, *index);
        },
        ExprV::InitList(items) => lib_exprs_sound(g, ok, items, 0),
        _ => {},
    }
}

proof fn lib_exprs_sound(g: GenV, ok: Set<usize>, es: Seq<ExprV>, k: int)
    requires
        sound(g, ok),
    ensures
        sound(translate::lib_exprs(g, es, k), ok),
        later(g, translate::lib_exprs(g, es, k)),
    decreases es, es.len() - k,
{
    maps_more(g, ok, sizes(g));
    if 0 <= k < es.len() {
        lib_expr_sound(g, ok, es[k]);
        lib_exprs_sound(translate::lib_expr(g, es[k]), ok, es, k + 1);
    }
}

proof fn lib_decl_sound(g: GenV, ok: Set<usize>, d: DeclV, k: int)
    requires
        sound(g, ok),
    ensures
        sound(translate::lib_decl(g, d, k), ok),
        later(g, translate::lib_decl(g, d, k)),
    decreases
            (match d {
                DeclV::Const(defs) => defs.len(),
                DeclV::Var(defs) => defs.len(),
            }) - k,
{
    maps_more(g, ok, sizes(g));
    match d {
        DeclV::Const(defs) => if 0 <= k < defs.len() {
            lib_expr_sound(g, ok, defs[k].init);
            lib_decl_sound(translate::lib_expr(g, defs[k].init), ok, d, k + 1);
        },
        DeclV::Var(defs) => if 0 <= k < defs.len() {
            match defs[k].init {
                Some(init) => {
                    lib_expr_sound(g, ok, init);
                    lib_decl_sound(translate::lib_expr(g, init), ok, d, k + 1);
                },
                None => lib_decl_sound(g, ok, d, k + 1),
            }
        },
    }
}

proof fn lib_stmt_sound(g: GenV, ok: Set<usize>, s: StmtV)
    requires
        sound(g, ok),
    ensures
        sound(translate::lib_stmt(g, s), ok),
        later(g, translate::lib_stmt(g, s)),
    decreases s, 0int,
{
    maps_more(g, ok, sizes(g));
    match s {
        StmtV::Return(Some(e)) => lib_expr_sound(g, ok, e),
        StmtV::Assign { expr, .. } => lib_expr_sound(g, ok, expr),
        StmtV::Expr(e) => lib_expr_sound(g, ok, e),
        StmtV::Block(items) => lib_block_sound(g, ok, items, 0),
        StmtV::If { cond, then_branch, else_branch } => {
            lib_expr_sound(g, ok, cond);
            lib_stmt_sound(translate::lib_expr(g, cond), ok, *then_branch);
            let g1 = translate::lib_stmt(translate::lib_expr(g, cond), *then_branch);
            if let Some(els) = else_branch {
                lib_stmt_sound(g1, ok, *els);
            }
        },
        StmtV::While { cond, body } => {
            lib_expr_sound(g, ok, cond);
            lib_stmt_sound(translate::lib_expr(g, cond), ok, *body);
        },
        _ => {},
    }
}

proof fn lib_block_sound(g: GenV, ok: Set<usize>, items: Seq<BlockItemV>, k: int)
    requires
        sound(g, ok),
    ensures
        sound(translate::lib_block(g, items, k), ok),
        later(g, translate::lib_block(g, items, k)),
    decreases items, items.len() - k,
{
    maps_more(g, ok, sizes(g));
    if 0 <= k < items.len() {
        match items[k] {
            BlockItemV::Stmt(s) => {
                lib_stmt_sound(g, ok, s);
                lib_block_sound(translate::lib_stmt(g, s), ok, items, k + 1);
            },
            BlockItemV::Decl(d) => {
                lib_decl_sound(g, ok, d, 0);
                lib_block_sound(translate::lib_decl(g, d, 0), ok, items, k + 1);
            },
        }
    }
}

// ── Functions and programs ───────────────────────────────────────────────────

proof fn param_sound(g: GenV, ok: Set<usize>, p: FuncParamV)
    requires
        sound(g, ok),
    ensures
        match translate::param(g, p) {
            Ok((h, q)) => sound(h, ok) && later(g, h) && q.0 < sizes(h).globals,
            Err(_) => true,
        },
{
    local_name_sound(g, ok, p.name);
    if let Ok((g1, first)) = g.local_name(p.name) {
        if p.is_array {
            intern_sound(g1, ok, first);
            if let Ok((g2, n)) = g1.intern(first) {
                if p.array_dims.len() == 0 {
                    bind_sound(g2, ok, p.name, SymV::PtrArray(n));
                } else {
                    let dims = translate::param_dims(g2, p.array_dims);
                    bind_sound(g2, ok, p.name, SymV::NdParam { name: n, dims });
                }
            }
        } else {
            mangle_sound(g1, ok, p.name);
            if let Ok((g2, second)) = g1.mangle(p.name) {
                intern_sound(g2, ok, first);
                if let Ok((g3, sig)) = g2.intern(first) {
                    intern_sound(g3, ok, second);
                    if let Ok((g4, n)) = g3.intern(second) {
                        pend_sound(g4, ok, n, IrType::I32);
                        let g5 = g4.pend(n, IrType::I32);
                        store_sound(g5, ok, IrOperand::Global(sig), IrOperand::Global(n));
                        bind_sound(
                            g5.emit(
                                InstV::Store {
                                    value: IrOperand::Global(sig),
                                    ptr: IrOperand::Global(n),
                                },
                            ),
                            ok,
                            p.name,
                            SymV::Var(n),
                        );
                    }
                }
            }
        }
    }
}

/// Parameters have names.
spec fn params_fit(n: SizesV, ps: Seq<(usize, IrType)>) -> bool {
    forall|k: int| 0 <= k < ps.len() ==> (#[trigger] ps[k]).0 < n.globals
}

proof fn params_sound(
    g: GenV,
    ok: Set<usize>,
    ps: Seq<FuncParamV>,
    k: int,
    done: Seq<(usize, IrType)>,
)
    requires
        sound(g, ok),
        params_fit(sizes(g), done),
    ensures
        match translate::params(g, ps, k, done) {
            Ok((h, qs)) => sound(h, ok) && later(g, h) && params_fit(sizes(h), qs),
            Err(_) => true,
        },
    decreases ps.len() - k,
{
    maps_more(g, ok, sizes(g));
    if 0 <= k < ps.len() {
        param_sound(g, ok, ps[k]);
        if let Ok((g1, q)) = translate::param(g, ps[k]) {
            let next = done.push(q);
            assert forall|j: int| 0 <= j < next.len() implies (#[trigger] next[j]).0
                < sizes(g1).globals by {
                if j < done.len() {
                    assert(next[j] == done[j]);
                }
            }
            params_sound(g1, ok, ps, k + 1, next);
        }
    }
}

/// Between functions, what has been translated refers to what is there.
spec fn settled(g: GenV) -> bool {
    &&& links::linked(g.program)
    &&& links::entries_not_targets(g.program.funcs)
    &&& map_fits(links::sizes(g.program), g.globals)
    &&& g.program.func_names.len() <= usize::MAX ==> calls_apart(g.program.funcs)
    &&& funcs_plain(g.program.funcs)
}

proof fn enter_sound(g: GenV, f: FuncDefV)
    requires
        settled(g),
        g.program.block_names.len() < usize::MAX,
        g.program.global_names.len() <= usize::MAX,
    ensures
        sound(translate::enter(g, f), Set::empty()),
{
    reveal(sound);
    let h = translate::enter(g, f);
    let n = links::sizes(g.program);
    let m = sizes(h);
    assert(links::within(n, m));
    assert forall|i: int| 0 <= i < h.program.funcs.len() implies links::func_linked(
        m,
        #[trigger] h.program.funcs[i],
    ) by {
        assert(links::func_linked(n, g.program.funcs[i]));
        links::func_linked_more(n, m, g.program.funcs[i]);
    }
    assert forall|name: Seq<char>| h.globals.contains_key(name) implies sym_fits(
        m,
        #[trigger] h.globals[name],
    ) by {
        assert(sym_fits(n, g.globals[name]));
    }
    assert(map_fits(m, h.scopes[0]));
    if m.funcs <= usize::MAX {
        assert forall|i: int| 0 <= i < h.program.funcs.len() implies names_below(
            #[trigger] h.program.funcs[i],
            h.b.func_name as int,
        ) by {
            let f = h.program.funcs[i];
            assert(links::func_linked(n, f));
            assert forall|b: int, j: int|
                #![trigger f.blocks[b].instrs[j]]
                0 <= b < f.blocks.len() && 0 <= j < f.blocks[b].instrs.len()
                    && f.blocks[b].instrs[j] is Call implies f.blocks[b].instrs[j]->Call_func
                < h.b.func_name by {
                assert(f.blocks[b].label < n.labels);
                assert(links::inst_linked(n, f.blocks, f.blocks[b].instrs[j]));
            }
        }
    }
}

/// The finished function refers to what is there.
proof fn built_linked(g: GenV, ps: Seq<(usize, IrType)>)
    requires
        sound(g, Set::empty()),
        params_fit(sizes(g), ps),
    ensures
        links::func_linked(sizes(g), FuncV { params: ps, ..g.b.built() }),
        links::entry_not_target(FuncV { params: ps, ..g.b.built() }),
        sizes(g).funcs <= usize::MAX ==> calls_above(
            FuncV { params: ps, ..g.b.built() },
            g.b.func_name as int,
        ),
        translation_blocks::no_phis(g.b.built().blocks),
        numbering_meaning::defined_once(g.b.built().blocks),
{
    reveal(sound);
    let n = sizes(g);
    let f = FuncV { params: ps, ..g.b.built() };
    let vars = ir_builder::allocs(g.b.pending);
    assert forall|b: int| 0 <= b < f.blocks.len() implies (#[trigger] f.blocks[b]).label
        == g.b.blocks[b].label by {}
    assert forall|t: usize| links::has_label(g.b.blocks, t) implies #[trigger] links::has_label(
        f.blocks,
        t,
    ) by {
        let k = choose|k: int| 0 <= k < g.b.blocks.len() && (#[trigger] g.b.blocks[k]).label == t;
        assert(f.blocks[k].label == t);
    }
    assert forall|b: int, i: int|
        #![trigger f.blocks[b].instrs[i]]
        0 <= b < f.blocks.len() && 0 <= i < f.blocks[b].instrs.len() implies links::inst_linked(
        n,
        f.blocks,
        f.blocks[b].instrs[i],
    ) && forall|t: usize| #[trigger]
        links::goes_to(f.blocks[b].instrs[i], t) ==> t != f.blocks[0].label by {
        let i1 = f.blocks[b].instrs[i];
        if b == 0 && i < vars.len() {
            assert(i1 == vars[i]);
            assert(vars[i] == (InstV::Alloc { dest: g.b.pending[i].0, ty: g.b.pending[i].1 }));
        } else {
            let j = if b == 0 {
                i - vars.len()
            } else {
                i
            };
            assert(i1 == g.b.blocks[b].instrs[j]);
            assert(settles(g, Set::empty(), i1));
            assert forall|t: usize| #[trigger] links::goes_to(i1, t) implies links::has_label(
                f.blocks,
                t,
            ) && t != f.blocks[0].label by {
                assert(reachable(g, Set::empty(), t));
            }
        }
    }
    assert forall|b: int| 0 <= b < f.blocks.len() implies (#[trigger] f.blocks[b]).label < n.labels
        && links::insts_linked(n, f.blocks, f.blocks[b].instrs) by {
        assert forall|i: int| 0 <= i < f.blocks[b].instrs.len() implies links::inst_linked(
            n,
            f.blocks,
            #[trigger] f.blocks[b].instrs[i],
        ) by {}
    }
    assert forall|b: int, i: int, t: usize|
        #![trigger links::goes_to(f.blocks[b].instrs[i], t)]
        0 <= b < f.blocks.len() && 0 <= i < f.blocks[b].instrs.len() && links::goes_to(
            f.blocks[b].instrs[i],
            t,
        ) implies t != f.blocks[0].label by {
        let i1 = f.blocks[b].instrs[i];
        assert(links::goes_to(i1, t));
    }
    built_plain(g);
    assert forall|b: int, i: int|
        #![trigger f.blocks[b].instrs[i]]
        n.funcs <= usize::MAX && 0 <= b < f.blocks.len() && 0 <= i < f.blocks[b].instrs.len()
            && f.blocks[b].instrs[i] is Call implies f.blocks[b].instrs[i]->Call_func
        > g.b.func_name by {
        let i1 = f.blocks[b].instrs[i];
        if b == 0 && i < vars.len() {
            assert(i1 == vars[i]);
        } else {
            let j = if b == 0 {
                i - vars.len()
            } else {
                i
            };
            assert(i1 == g.b.blocks[b].instrs[j]);
            assert(settles(g, Set::empty(), i1));
        }
    }
}

/// The finished function has no phis, and defines no SSA value twice.
proof fn built_plain(g: GenV)
    requires
        sound(g, Set::empty()),
    ensures
        translation_blocks::no_phis(g.b.built().blocks),
        numbering_meaning::defined_once(g.b.built().blocks),
{
    reveal(sound);
    let f = g.b.built();
    let vars = ir_builder::allocs(g.b.pending);
    assert forall|b: int, i: int|
        #![trigger f.blocks[b].instrs[i]]
        0 <= b < f.blocks.len() && 0 <= i < f.blocks[b].instrs.len() implies (
    f.blocks[b].instrs[i] is Alloc && b == 0 && i < vars.len()) || (f.blocks[b].instrs[i]
        == g.b.blocks[b].instrs[if b == 0 {
        i - vars.len()
    } else {
        i
    }] && settles(g, Set::empty(), f.blocks[b].instrs[i])) by {
        if b == 0 && i < vars.len() {
            assert(f.blocks[b].instrs[i] == vars[i]);
        } else {
            let j = if b == 0 {
                i - vars.len()
            } else {
                i
            };
            assert(f.blocks[b].instrs[i] == g.b.blocks[b].instrs[j]);
        }
    }
    assert forall|b: int, i: int, c: int, j: int, l: usize|
        0 <= b < f.blocks.len() && 0 <= i < f.blocks[b].instrs.len() && 0 <= c < f.blocks.len()
            && 0 <= j < f.blocks[c].instrs.len() && #[trigger] numbering_meaning::defines(
            f.blocks[b].instrs[i],
            l,
        ) && #[trigger] numbering_meaning::defines(f.blocks[c].instrs[j], l) implies b == c && i
        == j by {
        let x = if b == 0 {
            i - vars.len()
        } else {
            i
        };
        let y = if c == 0 {
            j - vars.len()
        } else {
            j
        };
        assert(!(f.blocks[b].instrs[i] is Alloc) && !(f.blocks[c].instrs[j] is Alloc));
        assert(numbering_meaning::defines(g.b.blocks[b].instrs[x], l));
        assert(numbering_meaning::defines(g.b.blocks[c].instrs[y], l));
    }
}

/// Whether the calls of a function have indices above an index.
spec fn calls_above(f: FuncV, k: int) -> bool {
    forall|b: int, i: int|
        #![trigger f.blocks[b].instrs[i]]
        0 <= b < f.blocks.len() && 0 <= i < f.blocks[b].instrs.len()
            && f.blocks[b].instrs[i] is Call ==> f.blocks[b].instrs[i]->Call_func > k
}

proof fn leave_settled(g: GenV, ps: Seq<(usize, IrType)>)
    requires
        sound(g, Set::empty()),
        params_fit(sizes(g), ps),
    ensures
        settled(translate::leave(g, ps)),
{
    let zero = IrOperand::Int(0);
    one_fits(sizes(g), zero);
    emit_sound(g, Set::empty(), InstV::Ret { value: None });
    emit_sound(g, Set::empty(), InstV::Ret { value: Some(zero) });
    let done = if g.b.terminated {
        g
    } else if g.ret_type is Void {
        g.emit(InstV::Ret { value: None })
    } else {
        g.emit(InstV::Ret { value: Some(zero) })
    };
    built_linked(done, ps);
    maps_more(done, Set::empty(), sizes(done));
    let h = translate::leave(g, ps);
    reveal(sound);
    assert(links::sizes(h.program) == sizes(done));
    assert forall|i: int| 0 <= i < h.program.funcs.len() implies links::func_linked(
        sizes(done),
        #[trigger] h.program.funcs[i],
    ) && links::entry_not_target(h.program.funcs[i]) by {
        if i < g.program.funcs.len() {
            assert(h.program.funcs[i] == done.program.funcs[i]);
        }
    }
    if h.program.func_names.len() <= usize::MAX {
        let funcs = h.program.funcs;
        let n = g.program.funcs.len() as int;
        let new = FuncV { params: ps, ..done.b.built() };
        assert(funcs[n] == new && new.name == done.b.func_name);
        assert forall|a: int, c: int, b: int, i: int|
            #![trigger funcs[a], funcs[c].blocks[b].instrs[i]]
            0 <= a < funcs.len() && 0 <= c < funcs.len() && 0 <= b < funcs[c].blocks.len() && 0 <= i
                < funcs[c].blocks[b].instrs.len()
                && funcs[c].blocks[b].instrs[i] is Call implies
            funcs[c].blocks[b].instrs[i]->Call_func != funcs[a].name by {
            if a < n {
                assert(names_below(done.program.funcs[a], done.b.func_name as int));
                assert(funcs[a] == done.program.funcs[a]);
            }
            if c < n {
                assert(names_below(done.program.funcs[c], done.b.func_name as int));
                assert(funcs[c] == done.program.funcs[c]);
                let i1 = done.program.funcs[c].blocks[b].instrs[i];
                assert(i1->Call_func < done.b.func_name);
                if a < n {
                    assert(done.program.funcs[a] == funcs[a]);
                }
            } else {
                assert(new.blocks[b].instrs[i]->Call_func > done.b.func_name);
            }
        }
    }
}

proof fn func_settled(g: GenV, f: FuncDefV)
    requires
        settled(g),
    ensures
        translate::func(g, f) matches Ok(h) ==> settled(h),
{
    if g.program.block_names.len() < usize::MAX && g.program.global_names.len() <= usize::MAX {
        let none: Set<usize> = Set::empty();
        enter_sound(g, f);
        let g0 = translate::enter(g, f);
        params_sound(g0, none, f.params, 0, Seq::empty());
        if let Ok((g1, ps)) = translate::params(g0, f.params, 0, Seq::empty()) {
            lib_block_sound(g1, none, f.body, 0);
            let g2 = translate::lib_block(g1, f.body, 0);
            block_sound(g2, none, f.body, 0);
            if let Ok(g3) = translate::block(g2, f.body, 0) {
                leave_settled(g3, ps);
            }
        }
    }
}

proof fn functions_settled(g: GenV, items: Seq<GlobalItemV>, k: int)
    requires
        settled(g),
    ensures
        translate::functions(g, items, k) matches Ok(h) ==> settled(h),
    decreases items.len() - k,
{
    if 0 <= k < items.len() {
        match items[k] {
            GlobalItemV::FuncDef(f) => {
                func_settled(g, f);
                if let Ok(g1) = translate::func(g, f) {
                    functions_settled(g1, items, k + 1);
                }
            },
            _ => functions_settled(g, items, k + 1),
        }
    }
}

/// A global name is found once it has been interned.
proof fn global_index_fits(g: GenV, name: Seq<char>)
    ensures
        translate::global_index(g, name) < ir::global_interned(g.program.global_names, name).len(),
{
    let names = g.program.global_names;
    let mark = ir::global_mark(name);
    let after = ir::global_interned(names, name);
    position_below(after, mark);
    if text::position(names, mark) is None {
        assert(after.drop_last() =~= names);
        assert(after.last() == mark);
    }
    assert(text::position(after, mark) is Some);
}

proof fn new_global_settled(g: GenV, name: Seq<char>, ty: IrType, init: InitV, sym: SymV)
    requires
        settled(g),
        sym_fits(links::sizes(translate::new_global(g, name, ty, init, sym).program), sym),
    ensures
        settled(translate::new_global(g, name, ty, init, sym)),
{
    global_index_fits(g, name);
    let h = translate::new_global(g, name, ty, init, sym);
    let n = links::sizes(g.program);
    let m = links::sizes(h.program);
    assert forall|i: int| 0 <= i < h.program.globals.len() implies (
    #[trigger] h.program.globals[i]).name < m.globals by {
        if i < g.program.globals.len() {
            assert(h.program.globals[i] == g.program.globals[i]);
        }
    }
    assert forall|i: int| 0 <= i < h.program.funcs.len() implies links::func_linked(
        m,
        #[trigger] h.program.funcs[i],
    ) by {
        assert(links::func_linked(n, g.program.funcs[i]));
        links::func_linked_more(n, m, g.program.funcs[i]);
    }
    assert forall|x: Seq<char>| h.globals.contains_key(x) implies sym_fits(
        m,
        #[trigger] h.globals[x],
    ) by {
        if x != name {
            assert(sym_fits(n, g.globals[x]));
        }
    }
}

proof fn global_const_settled(g: GenV, d: ConstDefV)
    requires
        settled(g),
    ensures
        translate::global_const(g, d) matches Ok(h) ==> settled(h),
{
    if d.dims.len() == 0 && !(d.init is InitList) {
        if let Ok(v) = translate::const_value(g, d.init) {
            let h = GenV { globals: g.globals.insert(d.name, SymV::Const(v)), ..g };
            let n = links::sizes(g.program);
            assert forall|x: Seq<char>| h.globals.contains_key(x) implies sym_fits(
                n,
                #[trigger] h.globals[x],
            ) by {
                if x != d.name {
                    assert(sym_fits(n, g.globals[x]));
                }
            }
        }
    } else if let Ok(dims) = translate::const_values(g, d.dims) {
        if let Ok(init) = translate::global_init(g, dims, d.init) {
            global_index_fits(g, d.name);
            new_global_settled(
                g,
                d.name,
                translate::array_type(dims),
                init,
                SymV::Array(translate::global_index(g, d.name), dims),
            );
        }
    }
}

proof fn global_var_settled(g: GenV, d: VarDefV)
    requires
        settled(g),
    ensures
        translate::global_var(g, d) matches Ok(h) ==> settled(h),
{
    global_index_fits(g, d.name);
    let at = translate::global_index(g, d.name);
    if d.dims.len() == 0 {
        let v = match d.init {
            None => 0i32,
            Some(init) => translate::const_value(g, init)->Ok_0,
        };
        new_global_settled(g, d.name, IrType::I32, InitV::Values(seq![v]), SymV::Var(at));
    } else if let Ok(dims) = translate::const_values(g, d.dims) {
        let init = match d.init {
            None => InitV::Zero,
            Some(e) => translate::global_init(g, dims, e)->Ok_0,
        };
        new_global_settled(g, d.name, translate::array_type(dims), init, SymV::Array(at, dims));
    }
}

proof fn global_decl_settled(g: GenV, d: DeclV, k: int)
    requires
        settled(g),
    ensures
        translate::global_decl(g, d, k) matches Ok(h) ==> settled(h),
    decreases
            (match d {
                DeclV::Const(defs) => defs.len(),
                DeclV::Var(defs) => defs.len(),
            }) - k,
{
    match d {
        DeclV::Const(defs) => if 0 <= k < defs.len() {
            global_const_settled(g, defs[k]);
            if let Ok(g1) = translate::global_const(g, defs[k]) {
                global_decl_settled(g1, d, k + 1);
            }
        },
        DeclV::Var(defs) => if 0 <= k < defs.len() {
            global_var_settled(g, defs[k]);
            if let Ok(g1) = translate::global_var(g, defs[k]) {
                global_decl_settled(g1, d, k + 1);
            }
        },
    }
}

proof fn signatures_settled(g: GenV, items: Seq<GlobalItemV>, k: int)
    requires
        settled(g),
    ensures
        translate::signatures(g, items, k) matches Ok(h) ==> settled(h),
    decreases items.len() - k,
{
    if 0 <= k < items.len() {
        match items[k] {
            GlobalItemV::FuncDef(f) => signatures_settled(
                GenV { func_rets: g.func_rets.insert(f.name, f.ret_type), ..g },
                items,
                k + 1,
            ),
            GlobalItemV::FuncDecl(f) => signatures_settled(
                GenV { func_rets: g.func_rets.insert(f.name, f.ret_type), ..g },
                items,
                k + 1,
            ),
            GlobalItemV::Decl(d) => {
                global_decl_settled(g, d, 0);
                if let Ok(g1) = translate::global_decl(g, d, 0) {
                    signatures_settled(g1, items, k + 1);
                }
            },
        }
    }
}

/// A translated program refers only to what is there: every name it uses is in its tables, and
/// every branch goes to a block of the same function, and never to the entry block. Calls have
/// indices of their own: they and functions are tied by names. There are no phis, and no function
/// defines an SSA value twice.
pub proof fn translated_is_linked(items: Seq<GlobalItemV>)
    ensures
        translate::program(items) matches Ok(p) ==> links::linked(p) && links::entries_not_targets(
            p.funcs,
        ) && (p.func_names.len() <= usize::MAX ==> calls_apart(p.funcs)) && funcs_plain(p.funcs),
{
    let g = translate::start();
    assert(settled(g));
    signatures_settled(g, items, 0);
    if let Ok(g1) = translate::signatures(g, items, 0) {
        functions_settled(g1, items, 0);
    }
}

/// Between functions, global variables have indices of names.
pub(crate) proof fn globals_are_named(items: Seq<GlobalItemV>, first: Seq<GlobalItemV>)
    ensures
        translate::signatures(translate::start(), items, 0) matches Ok(g) ==> (translate::functions(
            g,
            first,
            0,
        ) matches Ok(h) ==> forall|name: Seq<char>| #[trigger]
            h.globals.contains_key(name) ==> (h.globals[name] matches SymV::Var(x) ==> x
                < h.program.global_names.len())),
{
    let g0 = translate::start();
    assert(settled(g0));
    signatures_settled(g0, items, 0);
    if let Ok(g) = translate::signatures(g0, items, 0) {
        functions_settled(g, first, 0);
        if let Ok(h) = translate::functions(g, first, 0) {
            assert forall|name: Seq<char>| #[trigger] h.globals.contains_key(name) implies (
            h.globals[name] matches SymV::Var(x) ==> x < h.program.global_names.len()) by {
                assert(sym_fits(links::sizes(h.program), h.globals[name]));
            }
        }
    }
}

} // verus!

//! What the elements of global variables start with.
//!
//! The positions of elements are those of C: rows follow one another, an item without braces takes
//! the next element, and an item in braces the next row.

use crate::ast::{ConstDefV, DeclV, ExprV, GlobalItemV, VarDefV};
use crate::ir::{self, GlobalV, InitV, IrType, ProgV};
use crate::text;
use crate::translate::{self, GenV, SymV};
use crate::translation_blocks;
use vstd::prelude::*;

verus! {

// ── Places ───────────────────────────────────────────────────────────────────

/// The number of elements of an array.
pub open spec fn elements(dims: Seq<i32>) -> int
    decreases dims.len(),
{
    if dims.len() == 0 {
        1
    } else {
        elements(dims.drop_last()) * dims.last()
    }
}

/// The first multiple of a width at or after a position.
pub open spec fn next_row(p: int, width: int) -> int {
    if p % width == 0 {
        p
    } else {
        p - p % width + width
    }
}

/// Where an item of a braced list is put, or what follows the last item: an item in braces starts
/// a row and takes all of it.
pub open spec fn place(dims: Seq<i32>, items: Seq<ExprV>, k: int) -> int
    decreases k,
{
    let free = if k <= 0 {
        0
    } else if items[k - 1] is InitList {
        place(dims, items, k - 1) + if dims.len() > 1 {
            elements(dims.drop_first())
        } else {
            0
        }
    } else {
        place(dims, items, k - 1) + 1
    };
    if 0 <= k < items.len() && items[k] is InitList {
        next_row(free, dims.last() as int)
    } else {
        free
    }
}

/// The expression that the first `n` items of a braced list give an element, if they give it one.
pub open spec fn given(dims: Seq<i32>, items: Seq<ExprV>, n: int, p: int) -> Option<ExprV>
    decreases items, n,
{
    if n <= 0 || n > items.len() {
        None
    } else {
        let at = place(dims, items, n - 1);
        match items[n - 1] {
            ExprV::InitList(inner) => if dims.len() > 1 && at <= p < at + elements(
                dims.drop_first(),
            ) {
                given(dims.drop_first(), inner, inner.len() as int, p - at)
            } else {
                given(dims, items, n - 1, p)
            },
            e => if p == at {
                Some(e)
            } else {
                given(dims, items, n - 1, p)
            },
        }
    }
}

/// Whether the items of a braced list have room: no more than the elements there are, in each list.
pub open spec fn has_room(dims: Seq<i32>, items: Seq<ExprV>) -> bool
    decreases items,
{
    &&& place(dims, items, items.len() as int) <= elements(dims)
    &&& dims.len() > 1 ==> forall|k: int|
        0 <= k < items.len() && (#[trigger] items[k]) is InitList ==> has_room(
            dims.drop_first(),
            items[k]->InitList_0,
        )
}

/// What a list of initial values says of an element: the expression that is given, and zero where
/// none is.
pub open spec fn or_zero(e: Option<ExprV>) -> ExprV {
    match e {
        Some(x) => x,
        None => ExprV::Int(0),
    }
}

// ── Laying out ───────────────────────────────────────────────────────────────

proof fn elements_are_counted(dims: Seq<i32>)
    ensures
        translate::total(dims) matches Some(n) ==> n == elements(dims),
    decreases dims.len(),
{
    if dims.len() > 0 {
        elements_are_counted(dims.drop_last());
    }
}

proof fn rows_are_filled(flat: Seq<ExprV>, start: int, width: i32)
    requires
        0 <= start <= flat.len(),
        width > 0,
    ensures
        translate::fill_rows(flat, start, width) matches Some(all) && {
            &&& all.len() - start == next_row(flat.len() - start, width as int)
            &&& flat.len() <= all.len()
            &&& forall|q: int| 0 <= q < flat.len() ==> #[trigger] all[q] == flat[q]
            &&& forall|q: int|
                flat.len() <= q < all.len() ==> #[trigger] all[q] == ExprV::Int(0)
        },
{
    let p = flat.len() - start;
    let w = width as int;
    let m = p % w;
    assert(0 <= m < w) by (nonlinear_arith)
        requires
            w > 0,
            m == p % w,
    ;
    if m == 0 {
        assert((w - m) % w == 0) by (nonlinear_arith)
            requires
                w > 0,
                m == 0,
        ;
    } else {
        assert((w - m) % w == w - m) by (nonlinear_arith)
            requires
                0 < m < w,
        ;
    }
}

/// Whether a list of items holds what the first `n` items of a braced list say, from a position on.
spec fn holds(
    dims: Seq<i32>,
    items: Seq<ExprV>,
    n: int,
    flat: Seq<ExprV>,
    start: int,
    free: int,
) -> bool {
    &&& 0 <= start <= flat.len()
    &&& flat.len() - start == free
    &&& forall|q: int| 0 <= q < free ==> #[trigger] flat[start + q] == or_zero(
        given(dims, items, n, q),
    )
    &&& forall|q: int| free <= q ==> (#[trigger] given(dims, items, n, q)) is None
}

/// The position after the first `n` items.
spec fn free_after(dims: Seq<i32>, items: Seq<ExprV>, n: int) -> int {
    if n <= 0 {
        0
    } else if items[n - 1] is InitList {
        place(dims, items, n - 1) + if dims.len() > 1 {
            elements(dims.drop_first())
        } else {
            0
        }
    } else {
        place(dims, items, n - 1) + 1
    }
}

proof fn items_are_placed(
    dims: Seq<i32>,
    items: Seq<ExprV>,
    k: int,
    flat: Seq<ExprV>,
    start: int,
)
    requires
        dims.len() > 0,
        0 <= k <= items.len(),
        has_room(dims, items),
        holds(dims, items, k, flat, start, free_after(dims, items, k)),
    ensures
        translate::global_flat_items(dims, items, k, flat, start) matches Ok(all) ==> {
            &&& holds(
                dims,
                items,
                items.len() as int,
                all,
                start,
                free_after(dims, items, items.len() as int),
            )
            &&& flat.len() <= all.len()
            &&& forall|q: int| 0 <= q < start ==> #[trigger] all[q] == flat[q]
        },
    decreases items, items.len() - k,
{
    let free = free_after(dims, items, k);
    if k < items.len() {
        let at = place(dims, items, k);
        match items[k] {
            ExprV::InitList(inner) => {
                if dims.last() > 0 {
                    rows_are_filled(flat, start, dims.last());
                    let aligned = translate::fill_rows(flat, start, dims.last())->0;
                    assert(at == aligned.len() - start);
                    if dims.len() > 1 {
                        let rest = dims.drop_first();
                        assert(items[k] is InitList);
                        list_is_placed(rest, inner, aligned);
                        if let Ok(row) = translate::global_flat(rest, items[k], aligned) {
                            elements_are_counted(rest);
                            assert forall|q: int| 0 <= q < row.len()
                                - start implies #[trigger] row[start + q] == or_zero(
                                given(dims, items, k + 1, q),
                            ) by {
                                if q < at {
                                    assert(row[start + q] == aligned[start + q]);
                                    if q >= free {
                                        assert(given(dims, items, k, q) is None);
                                    }
                                } else {
                                    assert(row[aligned.len() + (q - at)] == row[start + q]);
                                }
                            }
                            assert forall|q: int| row.len() - start <= q implies (#[trigger] given(
                                dims,
                                items,
                                k + 1,
                                q,
                            )) is None by {
                                assert(given(dims, items, k, q) is None);
                            }
                            assert forall|q: int| 0 <= q < start implies #[trigger] row[q]
                                == flat[q] by {
                                assert(row[q] == aligned[q]);
                            }
                            items_are_placed(dims, items, k + 1, row, start);
                        }
                    } else {
                        assert forall|q: int| 0 <= q < aligned.len()
                            - start implies #[trigger] aligned[start + q] == or_zero(
                            given(dims, items, k + 1, q),
                        ) by {
                            if q >= free {
                                assert(given(dims, items, k, q) is None);
                            }
                        }
                        assert forall|q: int| aligned.len() - start <= q implies (
                        #[trigger] given(dims, items, k + 1, q)) is None by {
                            assert(given(dims, items, k, q) is None);
                        }
                        items_are_placed(dims, items, k + 1, aligned, start);
                    }
                }
            },
            e => {
                let more = flat.push(items[k]);
                assert forall|q: int| 0 <= q < more.len() - start implies #[trigger] more[start + q]
                    == or_zero(given(dims, items, k + 1, q)) by {
                    if q < free {
                        assert(more[start + q] == flat[start + q]);
                    }
                }
                assert forall|q: int| more.len() - start <= q implies (#[trigger] given(
                    dims,
                    items,
                    k + 1,
                    q,
                )) is None by {
                    assert(given(dims, items, k, q) is None);
                }
                items_are_placed(dims, items, k + 1, more, start);
            },
        }
    }
}

proof fn list_is_placed(dims: Seq<i32>, items: Seq<ExprV>, flat: Seq<ExprV>)
    requires
        dims.len() > 0,
        has_room(dims, items),
    ensures
        translate::global_flat(dims, ExprV::InitList(items), flat) matches Ok(all) ==> {
            &&& all.len() == flat.len() + elements(dims)
            &&& forall|q: int| 0 <= q < flat.len() ==> #[trigger] all[q] == flat[q]
            &&& forall|q: int| 0 <= q < elements(dims) ==> #[trigger] all[flat.len() + q]
                == or_zero(given(dims, items, items.len() as int, q))
        },
    decreases items, items.len() + 1,
{
    let start = flat.len() as int;
    items_are_placed(dims, items, 0, flat, start);
    elements_are_counted(dims);
    if let Ok(placed) = translate::global_flat_items(dims, items, 0, flat, start) {
        let n = items.len() as int;
        assert(place(dims, items, n) == free_after(dims, items, n));
        if let Ok(all) = translate::global_flat(dims, ExprV::InitList(items), flat) {
            assert forall|q: int| 0 <= q < flat.len() implies #[trigger] all[q] == flat[q] by {
                assert(all[q] == placed[q]);
            }
            assert forall|q: int| 0 <= q < elements(dims) implies #[trigger] all[flat.len() + q]
                == or_zero(given(dims, items, n, q)) by {
                if q < placed.len() - start {
                    assert(all[start + q] == placed[start + q]);
                } else {
                    assert(given(dims, items, n, q) is None);
                }
            }
        }
    }
}

// ── Global variables ─────────────────────────────────────────────────────────

/// Whether a type is that of an array with given dimensions.
pub open spec fn has_shape(ty: IrType, dims: Seq<i32>) -> bool
    decreases dims.len(),
{
    if dims.len() == 0 {
        ty is I32
    } else {
        match ty {
            IrType::Array(inner, n) => (0 <= dims[0] ==> n == dims[0]) && has_shape(
                *inner,
                dims.drop_first(),
            ),
            _ => false,
        }
    }
}

/// Whether a global variable of a program has a name and a shape.
pub open spec fn is_global(p: ProgV, n: int, name: Seq<char>, dims: Seq<i32>) -> bool {
    &&& 0 <= n < p.globals.len()
    &&& p.globals[n].name < p.global_names.len()
    &&& p.global_names[p.globals[n].name as int] == seq!['@'] + name
    &&& has_shape(p.globals[n].ty, dims)
}

/// What an element of a global variable starts with.
pub open spec fn start_value(p: ProgV, n: int, q: int) -> i32 {
    match p.globals[n].init {
        InitV::Zero => 0,
        InitV::Values(vals) => if 0 <= q < vals.len() {
            vals[q]
        } else {
            0
        },
    }
}

/// Whether the elements of a global variable start with the constants that a braced list gives
/// them, and with zero where it gives none.
pub open spec fn starts_with_list(
    g: GenV,
    p: ProgV,
    n: int,
    dims: Seq<i32>,
    items: Seq<ExprV>,
) -> bool {
    &&& p.globals[n].init matches InitV::Values(vals) && vals.len() == elements(dims)
    &&& forall|q: int|
        0 <= q < elements(dims) ==> match given(dims, items, items.len() as int, q) {
            None => #[trigger] start_value(p, n, q) == 0,
            Some(e) => translate::const_value(g, e) matches Ok(v) ==> start_value(p, n, q) == v,
        }
}

/// Whether the elements of a global variable start with zero.
pub open spec fn starts_with_zeros(p: ProgV, n: int, dims: Seq<i32>) -> bool {
    forall|q: int| 0 <= q < elements(dims) ==> #[trigger] start_value(p, n, q) == 0
}

proof fn array_types_have_shape(dims: Seq<i32>)
    ensures
        has_shape(translate::array_type(dims), dims),
    decreases dims.len(),
{
    if dims.len() > 0 {
        array_types_have_shape(dims.drop_first());
    }
}

/// A program that has the global variables of another, with the names they have there.
pub open spec fn keeps_globals(p: ProgV, q: ProgV) -> bool {
    &&& p.globals.len() <= q.globals.len()
    &&& forall|n: int| 0 <= n < p.globals.len() ==> #[trigger] q.globals[n] == p.globals[n]
    &&& p.global_names.len() <= q.global_names.len()
    &&& forall|n: int|
        0 <= n < p.global_names.len() ==> #[trigger] q.global_names[n] == p.global_names[n]
}

/// A new global variable comes after those there are.
proof fn new_global_is_last(g: GenV, name: Seq<char>, ty: IrType, init: InitV, sym: SymV)
    requires
        !text::starts_with(name, '@'),
        g.program.global_names.len() < usize::MAX,
    ensures
        ({
            let h = translate::new_global(g, name, ty, init, sym);
            let n = g.program.globals.len() as int;
            &&& keeps_globals(g.program, h.program)
            &&& h.program.globals.len() == n + 1
            &&& h.program.globals[n].ty == ty
            &&& h.program.globals[n].init == init
            &&& h.program.globals[n].name < h.program.global_names.len()
            &&& h.program.global_names[h.program.globals[n].name as int] == seq!['@'] + name
        }),
{
    let names = g.program.global_names;
    let mark = ir::global_mark(name);
    reveal_strlit("@");
    assert(mark =~= seq!['@'] + name);
    text::position_is_first(names, mark);
    let all = ir::global_interned(names, name);
    text::position_is_first(all, mark);
    if text::position(names, mark) is None {
        assert(all[names.len() as int] == mark);
    }
}

/// The elements of a global array with a braced list of initial values.
proof fn list_starts(g: GenV, dims: Seq<i32>, items: Seq<ExprV>)
    requires
        dims.len() > 0,
        has_room(dims, items),
    ensures
        translate::global_init(g, dims, ExprV::InitList(items)) matches Ok(init) ==> {
            &&& init matches InitV::Values(vals) && vals.len() == elements(dims)
            &&& forall|q: int|
                0 <= q < elements(dims) ==> #[trigger] init->Values_0[q]
                    == translate::const_or_zero(
                    g,
                    or_zero(given(dims, items, items.len() as int, q)),
                )
        },
{
    list_is_placed(dims, items, Seq::empty());
    elements_are_counted(dims);
    if let Ok(init) = translate::global_init(g, dims, ExprV::InitList(items)) {
        let flat = translate::global_flat(dims, ExprV::InitList(items), Seq::empty())->Ok_0;
        let all = translate::fill(flat, elements(dims));
        assert(all =~= flat);
        assert forall|q: int| 0 <= q < elements(dims) implies #[trigger] init->Values_0[q]
            == translate::const_or_zero(
            g,
            or_zero(given(dims, items, items.len() as int, q)),
        ) by {
            assert(flat[0 + q] == or_zero(given(dims, items, items.len() as int, q)));
        }
    }
}

/// A constant array at the top level becomes a global variable whose elements start with the
/// constants written for them, and with zero where none is.
pub proof fn constant_array_starts(g: GenV, d: ConstDefV, dims: Seq<i32>, items: Seq<ExprV>)
    requires
        !text::starts_with(d.name, '@'),
        g.program.global_names.len() < usize::MAX,
        d.init == ExprV::InitList(items),
        translate::const_values(g, d.dims) == Ok::<Seq<i32>, crate::error::ErrorView>(dims),
        dims.len() > 0,
        has_room(dims, items),
    ensures
        translate::global_const(g, d) matches Ok(h) ==> {
            let n = g.program.globals.len() as int;
            &&& keeps_globals(g.program, h.program)
            &&& is_global(h.program, n, d.name, dims)
            &&& starts_with_list(g, h.program, n, dims, items)
        },
{
    dims_are_as_many(g, d.dims);
    if let Ok(h) = translate::global_const(g, d) {
        let init = translate::global_init(g, dims, d.init)->Ok_0;
        list_starts(g, dims, items);
        array_types_have_shape(dims);
        new_global_is_last(
            g,
            d.name,
            translate::array_type(dims),
            init,
            SymV::Array(translate::global_index(g, d.name), dims),
        );
        listed(g, h.program, dims, items, init);
    }
}

proof fn dims_are_as_many(g: GenV, es: Seq<ExprV>)
    ensures
        translate::const_values(g, es) matches Ok(dims) ==> dims.len() == es.len(),
    decreases es.len(),
{
    if es.len() > 0 {
        dims_are_as_many(g, es.drop_last());
    }
}

proof fn listed(g: GenV, p: ProgV, dims: Seq<i32>, items: Seq<ExprV>, init: InitV)
    requires
        p.globals.len() > 0,
        p.globals.last().init == init,
        init matches InitV::Values(vals) && vals.len() == elements(dims),
        forall|q: int|
            0 <= q < elements(dims) ==> #[trigger] init->Values_0[q] == translate::const_or_zero(
                g,
                or_zero(given(dims, items, items.len() as int, q)),
            ),
    ensures
        starts_with_list(g, p, p.globals.len() - 1, dims, items),
{
    let n = p.globals.len() - 1;
    assert forall|q: int| 0 <= q < elements(dims) implies match given(
        dims,
        items,
        items.len() as int,
        q,
    ) {
        None => #[trigger] start_value(p, n, q) == 0,
        Some(e) => translate::const_value(g, e) matches Ok(v) ==> start_value(p, n, q) == v,
    } by {
        assert(start_value(p, n, q) == init->Values_0[q]);
    }
}

/// A variable at the top level becomes a global variable: a single one starts with its constant or
/// zero, an array with the constants of its braced list, and with zeros where it has no list or the
/// list gives none.
pub proof fn variable_starts(g: GenV, d: VarDefV, dims: Seq<i32>)
    requires
        !text::starts_with(d.name, '@'),
        g.program.global_names.len() < usize::MAX,
        translate::const_values(g, d.dims) == Ok::<Seq<i32>, crate::error::ErrorView>(dims),
    ensures
        translate::global_var(g, d) matches Ok(h) ==> {
            let n = g.program.globals.len() as int;
            &&& keeps_globals(g.program, h.program)
            &&& is_global(h.program, n, d.name, dims)
            &&& match d.init {
                None => starts_with_zeros(h.program, n, dims),
                Some(ExprV::InitList(items)) => dims.len() > 0 && has_room(dims, items)
                    ==> starts_with_list(g, h.program, n, dims, items),
                Some(e) => dims.len() == 0 ==> (translate::const_value(g, e) matches Ok(v)
                    && start_value(h.program, n, 0) == v),
            }
        },
{
    dims_are_as_many(g, d.dims);
    if let Ok(h) = translate::global_var(g, d) {
        array_types_have_shape(dims);
        if dims.len() == 0 {
            let v: i32 = match d.init {
                None => 0,
                Some(init) => translate::const_value(g, init)->Ok_0,
            };
            new_global_is_last(
                g,
                d.name,
                IrType::I32,
                InitV::Values(seq![v]),
                SymV::Var(translate::global_index(g, d.name)),
            );
        } else {
            let init = match d.init {
                None => InitV::Zero,
                Some(e) => translate::global_init(g, dims, e)->Ok_0,
            };
            new_global_is_last(
                g,
                d.name,
                translate::array_type(dims),
                init,
                SymV::Array(translate::global_index(g, d.name), dims),
            );
            if let Some(ExprV::InitList(items)) = d.init {
                if has_room(dims, items) {
                    list_starts(g, dims, items);
                    listed(g, h.program, dims, items, init);
                }
            }
        }
    }
}

// ── Programs ─────────────────────────────────────────────────────────────────

proof fn keeps_more(p: ProgV, q: ProgV, r: ProgV)
    requires
        keeps_globals(p, q),
        keeps_globals(q, r),
    ensures
        keeps_globals(p, r),
{
    assert forall|n: int| 0 <= n < p.globals.len() implies #[trigger] r.globals[n]
        == p.globals[n] by {
        assert(q.globals[n] == p.globals[n]);
    }
    assert forall|n: int| 0 <= n < p.global_names.len() implies #[trigger] r.global_names[n]
        == p.global_names[n] by {
        assert(q.global_names[n] == p.global_names[n]);
    }
}

proof fn definitions_keep(g: GenV, d: DeclV, k: int)
    ensures
        translate::global_decl(g, d, k) matches Ok(h) ==> keeps_globals(g.program, h.program),
    decreases
            (match d {
                DeclV::Const(defs) => defs.len(),
                DeclV::Var(defs) => defs.len(),
            }) - k,
{
    match d {
        DeclV::Const(defs) => if 0 <= k < defs.len() {
            if let Ok(g1) = translate::global_const(g, defs[k]) {
                definitions_keep(g1, d, k + 1);
                if let Ok(h) = translate::global_decl(g1, d, k + 1) {
                    keeps_more(g.program, g1.program, h.program);
                }
            }
        },
        DeclV::Var(defs) => if 0 <= k < defs.len() {
            if let Ok(g1) = translate::global_var(g, defs[k]) {
                definitions_keep(g1, d, k + 1);
                if let Ok(h) = translate::global_decl(g1, d, k + 1) {
                    keeps_more(g.program, g1.program, h.program);
                }
            }
        },
    }
}

proof fn signatures_keep(g: GenV, items: Seq<GlobalItemV>, k: int)
    ensures
        translate::signatures(g, items, k) matches Ok(h) ==> keeps_globals(g.program, h.program),
    decreases items.len() - k,
{
    if 0 <= k < items.len() {
        match items[k] {
            GlobalItemV::FuncDef(f) => signatures_keep(
                GenV { func_rets: g.func_rets.insert(f.name, f.ret_type), ..g },
                items,
                k + 1,
            ),
            GlobalItemV::FuncDecl(f) => signatures_keep(
                GenV { func_rets: g.func_rets.insert(f.name, f.ret_type), ..g },
                items,
                k + 1,
            ),
            GlobalItemV::Decl(d) => {
                definitions_keep(g, d, 0);
                if let Ok(g1) = translate::global_decl(g, d, 0) {
                    signatures_keep(g1, items, k + 1);
                    if let Ok(h) = translate::signatures(g1, items, k + 1) {
                        keeps_more(g.program, g1.program, h.program);
                    }
                }
            },
        }
    }
}

/// What is known after the first `i` items of a program.
pub open spec fn known_after(items: Seq<GlobalItemV>, i: int) -> Result<
    GenV,
    crate::error::ErrorView,
> {
    translate::signatures(translate::start(), items.take(i), 0)
}

/// The first items of a list and the others give what all of them give.
proof fn signatures_split(g: GenV, items: Seq<GlobalItemV>, k: int, i: int)
    requires
        0 <= k <= i <= items.len(),
        translate::signatures(g, items, k) is Ok,
    ensures
        translate::signatures(g, items.take(i), k) is Ok,
        translate::signatures(translate::signatures(g, items.take(i), k)->Ok_0, items, i)
            == translate::signatures(g, items, k),
    decreases i - k,
{
    if k < i {
        assert(items.take(i)[k] == items[k]);
        match items[k] {
            GlobalItemV::FuncDef(f) => signatures_split(
                GenV { func_rets: g.func_rets.insert(f.name, f.ret_type), ..g },
                items,
                k + 1,
                i,
            ),
            GlobalItemV::FuncDecl(f) => signatures_split(
                GenV { func_rets: g.func_rets.insert(f.name, f.ret_type), ..g },
                items,
                k + 1,
                i,
            ),
            GlobalItemV::Decl(d) => {
                signatures_split(translate::global_decl(g, d, 0)->Ok_0, items, k + 1, i);
            },
        }
    } else {
        assert(translate::signatures(g, items.take(i), k) == Ok::<GenV, crate::error::ErrorView>(
            g,
        ));
    }
}

/// The global variables of a program are those that its declarations define.
proof fn program_keeps(items: Seq<GlobalItemV>, i: int)
    requires
        0 <= i <= items.len(),
        translate::program(items) is Ok,
    ensures
        known_after(items, i) is Ok,
        keeps_globals((known_after(items, i)->Ok_0).program, translate::program(items)->Ok_0),
        i < items.len() ==> {
            let g = known_after(items, i)->Ok_0;
            items[i] matches GlobalItemV::Decl(d) ==> translate::global_decl(g, d, 0) is Ok
                && keeps_globals(
                (translate::global_decl(g, d, 0)->Ok_0).program,
                translate::program(items)->Ok_0,
            )
        },
{
    signatures_split(translate::start(), items, 0, i);
    let g = known_after(items, i)->Ok_0;
    let all = translate::signatures(translate::start(), items, 0)->Ok_0;
    signatures_keep(g, items, i);
    translation_blocks::functions_keep_globals(all, items, 0);
    let done = translate::functions(all, items, 0)->Ok_0;
    assert(keeps_globals(all.program, done.program));
    keeps_more(g.program, all.program, done.program);
    if i < items.len() {
        if let GlobalItemV::Decl(d) = items[i] {
            let g1 = translate::global_decl(g, d, 0)->Ok_0;
            signatures_keep(g1, items, i + 1);
            keeps_more(g1.program, all.program, done.program);
        }
    }
}

/// What is known before a definition of the declaration that follows the first `i` items.
pub open spec fn known_before(items: Seq<GlobalItemV>, i: int, j: int) -> GenV {
    let g = known_after(items, i)->Ok_0;
    match items[i] {
        GlobalItemV::Decl(DeclV::Const(defs)) => translate::global_decl(
            g,
            DeclV::Const(defs.take(j)),
            0,
        )->Ok_0,
        GlobalItemV::Decl(DeclV::Var(defs)) => translate::global_decl(
            g,
            DeclV::Var(defs.take(j)),
            0,
        )->Ok_0,
        _ => g,
    }
}

proof fn consts_split(g: GenV, defs: Seq<ConstDefV>, k: int, j: int)
    requires
        0 <= k <= j <= defs.len(),
        translate::global_decl(g, DeclV::Const(defs), k) is Ok,
    ensures
        translate::global_decl(g, DeclV::Const(defs.take(j)), k) is Ok,
        translate::global_decl(
            translate::global_decl(g, DeclV::Const(defs.take(j)), k)->Ok_0,
            DeclV::Const(defs),
            j,
        ) == translate::global_decl(g, DeclV::Const(defs), k),
    decreases j - k,
{
    if k < j {
        assert(defs.take(j)[k] == defs[k]);
        consts_split(translate::global_const(g, defs[k])->Ok_0, defs, k + 1, j);
    }
}

proof fn vars_split(g: GenV, defs: Seq<VarDefV>, k: int, j: int)
    requires
        0 <= k <= j <= defs.len(),
        translate::global_decl(g, DeclV::Var(defs), k) is Ok,
    ensures
        translate::global_decl(g, DeclV::Var(defs.take(j)), k) is Ok,
        translate::global_decl(
            translate::global_decl(g, DeclV::Var(defs.take(j)), k)->Ok_0,
            DeclV::Var(defs),
            j,
        ) == translate::global_decl(g, DeclV::Var(defs), k),
    decreases j - k,
{
    if k < j {
        assert(defs.take(j)[k] == defs[k]);
        vars_split(translate::global_var(g, defs[k])->Ok_0, defs, k + 1, j);
    }
}

/// A constant array of a program has a global variable of its name and shape in what the program
/// is translated to, and each of its elements starts with the constant written for it, or with zero
/// where none is.
pub proof fn constant_arrays_start(
    items: Seq<GlobalItemV>,
    i: int,
    defs: Seq<ConstDefV>,
    j: int,
    dims: Seq<i32>,
    list: Seq<ExprV>,
) -> (n: int)
    requires
        translate::program(items) is Ok,
        0 <= i < items.len(),
        items[i] == GlobalItemV::Decl(DeclV::Const(defs)),
        0 <= j < defs.len(),
        !text::starts_with(defs[j].name, '@'),
        defs[j].init == ExprV::InitList(list),
        translate::const_values(known_before(items, i, j), defs[j].dims) == Ok::<
            Seq<i32>,
            crate::error::ErrorView,
        >(dims),
        dims.len() > 0,
        has_room(dims, list),
        (translate::program(items)->Ok_0).global_names.len() < usize::MAX,
    ensures
        is_global(translate::program(items)->Ok_0, n, defs[j].name, dims),
        starts_with_list(
            known_before(items, i, j),
            translate::program(items)->Ok_0,
            n,
            dims,
            list,
        ),
{
    let p = translate::program(items)->Ok_0;
    program_keeps(items, i);
    let g = known_after(items, i)->Ok_0;
    consts_split(g, defs, 0, j);
    let g1 = known_before(items, i, j);
    let h = translate::global_const(g1, defs[j])->Ok_0;
    definitions_keep(h, DeclV::Const(defs), j + 1);
    let last = translate::global_decl(g, DeclV::Const(defs), 0)->Ok_0;
    keeps_more(h.program, last.program, p);
    definitions_keep(g1, DeclV::Const(defs), j);
    keeps_more(g1.program, last.program, p);
    constant_array_starts(g1, defs[j], dims, list);
    let n = g1.program.globals.len() as int;
    assert(p.globals[n] == h.program.globals[n]);
    assert(p.global_names[p.globals[n].name as int]
        == h.program.global_names[h.program.globals[n].name as int]);
    assert forall|q: int| 0 <= q < elements(dims) implies match given(
        dims,
        list,
        list.len() as int,
        q,
    ) {
        None => #[trigger] start_value(p, n, q) == 0,
        Some(e) => translate::const_value(g1, e) matches Ok(v) ==> start_value(p, n, q) == v,
    } by {
        assert(start_value(h.program, n, q) == start_value(p, n, q));
    }
    n
}

/// A variable of a program has a global variable of its name and shape in what the program is
/// translated to, which starts with what is written for it, or with zeros.
pub proof fn variables_start(
    items: Seq<GlobalItemV>,
    i: int,
    defs: Seq<VarDefV>,
    j: int,
    dims: Seq<i32>,
) -> (n: int)
    requires
        translate::program(items) is Ok,
        0 <= i < items.len(),
        items[i] == GlobalItemV::Decl(DeclV::Var(defs)),
        0 <= j < defs.len(),
        !text::starts_with(defs[j].name, '@'),
        translate::const_values(known_before(items, i, j), defs[j].dims) == Ok::<
            Seq<i32>,
            crate::error::ErrorView,
        >(dims),
        (translate::program(items)->Ok_0).global_names.len() < usize::MAX,
    ensures
        ({
            let p = translate::program(items)->Ok_0;
            let g = known_before(items, i, j);
            &&& is_global(p, n, defs[j].name, dims)
            &&& match defs[j].init {
                None => starts_with_zeros(p, n, dims),
                Some(ExprV::InitList(list)) => dims.len() > 0 && has_room(dims, list)
                    ==> starts_with_list(g, p, n, dims, list),
                Some(e) => dims.len() == 0 ==> (translate::const_value(g, e) matches Ok(v)
                    && start_value(p, n, 0) == v),
            }
        }),
{
    let p = translate::program(items)->Ok_0;
    program_keeps(items, i);
    let g = known_after(items, i)->Ok_0;
    vars_split(g, defs, 0, j);
    let g1 = known_before(items, i, j);
    let h = translate::global_var(g1, defs[j])->Ok_0;
    definitions_keep(h, DeclV::Var(defs), j + 1);
    let last = translate::global_decl(g, DeclV::Var(defs), 0)->Ok_0;
    keeps_more(h.program, last.program, p);
    definitions_keep(g1, DeclV::Var(defs), j);
    keeps_more(g1.program, last.program, p);
    variable_starts(g1, defs[j], dims);
    let n = g1.program.globals.len() as int;
    assert(p.globals[n] == h.program.globals[n]);
    assert(p.global_names[p.globals[n].name as int]
        == h.program.global_names[h.program.globals[n].name as int]);
    assert forall|q: int| #[trigger] start_value(p, n, q) == start_value(h.program, n, q) by {}
    if let Some(ExprV::InitList(list)) = defs[j].init {
        if dims.len() > 0 && has_room(dims, list) {
            assert forall|q: int| 0 <= q < elements(dims) implies match given(
                dims,
                list,
                list.len() as int,
                q,
            ) {
                None => #[trigger] start_value(p, n, q) == 0,
                Some(e) => translate::const_value(g1, e) matches Ok(v) ==> start_value(p, n, q)
                    == v,
            } by {
                assert(start_value(h.program, n, q) == start_value(p, n, q));
            }
        }
    }
    n
}

} // verus!

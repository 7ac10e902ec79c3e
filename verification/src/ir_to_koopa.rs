//! Writes a program as Koopa IR text.
//!
//! Phis are not written: each becomes copies at the end of the blocks its values come from.

use crate::cfg::{self, index_blocks};
use crate::ir::{
    self, BlockV, FuncDeclIrV, FuncV, GlobalV, InitV, InstV, IrArithOp, IrBlock, IrFunc, IrFuncDecl,
    IrGlobal, IrGlobalInit, IrInst, IrOperand, IrProgram, IrType, ProgV,
};
use crate::text::{self, cat2, cat3, cat4, cat5, cat7, cat8, dec_i32, join_strings};
use std::collections::HashMap;
use vstd::prelude::*;

verus! {

broadcast use {
    vstd::std_specs::hash::group_hash_axioms,
    crate::text::texts_push,
    crate::ir::insts_push,
    crate::ir::blocks_push,
};

// ── What can be written ──────────────────────────────────────────────────────

/// The indices of an instruction have names.
pub open spec fn inst_named(p: ProgV, i: InstV) -> bool {
    match i {
        InstV::Alloc { dest, .. } => dest < p.global_names.len(),
        InstV::Load { dest, .. } => dest < p.local_names.len(),
        InstV::Arith { dest, .. } => dest < p.local_names.len(),
        InstV::Icmp { dest, .. } => dest < p.local_names.len(),
        InstV::GetPtr { dest, .. } => dest < p.local_names.len(),
        InstV::GetElemPtr { dest, .. } => dest < p.local_names.len(),
        InstV::Call { dest, func, .. } => func < p.func_names.len() && (dest matches Some(d) ==> d
            < p.local_names.len()),
        InstV::Br { then_bb, else_bb, .. } => then_bb < p.block_names.len() && else_bb
            < p.block_names.len(),
        InstV::Jump { target } => target < p.block_names.len(),
        InstV::Phi { dest, .. } => dest < p.local_names.len(),
        _ => true,
    }
}

/// The indices of a block have names.
pub open spec fn block_named(p: ProgV, b: BlockV) -> bool {
    b.label < p.block_names.len() && forall|i: int|
        0 <= i < b.instrs.len() ==> inst_named(p, #[trigger] b.instrs[i])
}

/// The indices of a function have names.
pub open spec fn func_named(p: ProgV, f: FuncV) -> bool {
    &&& f.name < p.func_names.len()
    &&& forall|i: int| 0 <= i < f.params.len() ==> (#[trigger] f.params[i]).0 < p.global_names.len()
    &&& forall|b: int| 0 <= b < f.blocks.len() ==> block_named(p, #[trigger] f.blocks[b])
}

/// Every index in a program has a name.
pub open spec fn named(p: ProgV) -> bool {
    &&& forall|i: int|
        0 <= i < p.globals.len() ==> (#[trigger] p.globals[i]).name < p.global_names.len()
    &&& forall|i: int|
        0 <= i < p.func_decls.len() ==> (#[trigger] p.func_decls[i]).name < p.func_names.len()
    &&& forall|i: int| 0 <= i < p.funcs.len() ==> func_named(p, #[trigger] p.funcs[i])
}

// ── Globals and declarations ─────────────────────────────────────────────────

/// The value at a position, and zero beyond the end.
pub open spec fn value_at(vals: Seq<i32>, pos: int) -> i32 {
    if 0 <= pos < vals.len() {
        vals[pos]
    } else {
        0
    }
}

/// The initial value of a type, from the values from `pos` on, and the position after it.
pub open spec fn nested_init(ty: IrType, vals: Seq<i32>, pos: int) -> (Seq<char>, int)
    decreases ty, 0int,
{
    match ty {
        IrType::Array(inner, len) => {
            let (items, end) = nested_items(*inner, len as int, vals, pos);
            ("{"@ + text::join(items, ", "@) + "}"@, end)
        },
        _ => (text::dec_int(value_at(vals, pos) as int), pos + 1),
    }
}

/// The initial values of the first `n` elements of an array.
pub open spec fn nested_items(inner: IrType, n: int, vals: Seq<i32>, pos: int) -> (
    Seq<Seq<char>>,
    int,
)
    decreases inner, n + 1,
{
    if n <= 0 {
        (Seq::empty(), pos)
    } else {
        let (items, mid) = nested_items(inner, n - 1, vals, pos);
        let (item, end) = nested_init(inner, vals, mid);
        (items.push(item), end)
    }
}

/// The initial value of a global variable.
pub open spec fn init_text(g: GlobalV) -> Seq<char> {
    match g.init {
        InitV::Zero => "zeroinit"@,
        InitV::Values(vals) => if vals.len() == 1 && g.ty == IrType::I32 {
            text::dec_int(vals[0] as int)
        } else {
            nested_init(g.ty, vals, 0).0
        },
    }
}

/// A global variable.
pub open spec fn global_text(p: ProgV, g: GlobalV) -> Seq<char> {
    "global "@ + p.global_names[g.name as int] + " = alloc "@ + ir::type_text(g.ty) + ", "@
        + init_text(g) + "\n"@
}

/// What follows the parameters of a function in its signature.
pub open spec fn ret_text(ty: IrType) -> Seq<char> {
    match ty {
        IrType::Void => Seq::empty(),
        t => ": "@ + ir::type_text(t),
    }
}

/// A function declaration.
pub open spec fn decl_text(p: ProgV, d: FuncDeclIrV) -> Seq<char> {
    "decl @"@ + p.func_names[d.name as int] + "("@ + text::join(
        d.param_types.map_values(|t: IrType| ir::type_text(t)),
        ", "@,
    ) + ")"@ + ret_text(d.ret_type) + "\n"@
}

// ── Instructions ─────────────────────────────────────────────────────────────

/// An operand.
pub open spec fn op_text(p: ProgV, op: IrOperand) -> Seq<char> {
    ir::operand_text(op, p.local_names, p.global_names)
}

/// An instruction with two operands and a result.
pub open spec fn two_op_text(
    p: ProgV,
    dest: usize,
    op: Seq<char>,
    lhs: IrOperand,
    rhs: IrOperand,
) -> Seq<char> {
    "  "@ + p.local_names[dest as int] + " = "@ + op + " "@ + op_text(p, lhs) + ", "@ + op_text(
        p,
        rhs,
    ) + "\n"@
}

/// The function and arguments of a call.
pub open spec fn call_text(p: ProgV, func: usize, args: Seq<IrOperand>) -> Seq<char> {
    "call @"@ + p.func_names[func as int] + "("@ + text::join(
        args.map_values(|a: IrOperand| op_text(p, a)),
        ", "@,
    ) + ")\n"@
}

/// An instruction.
pub open spec fn inst_text(p: ProgV, i: InstV) -> Seq<char> {
    match i {
        InstV::Alloc { dest, ty } => alloc_text(p, dest, ty),
        InstV::Load { dest, src } => load_text(p, dest, src),
        InstV::Store { value, ptr } => "  store "@ + op_text(p, value) + ", "@ + op_text(p, ptr)
            + "\n"@,
        InstV::Arith { dest, op, lhs, rhs } => two_op_text(p, dest, ir::arith_text(op), lhs, rhs),
        InstV::Icmp { dest, op, lhs, rhs } => two_op_text(p, dest, ir::cmp_text(op), lhs, rhs),
        InstV::GetPtr { dest, ptr, index, .. } => two_op_text(p, dest, "getptr"@, ptr, index),
        InstV::GetElemPtr { dest, ptr, index, .. } => two_op_text(
            p,
            dest,
            "getelemptr"@,
            ptr,
            index,
        ),
        InstV::Call { dest, func, args } => match dest {
            Some(d) => dest_text(p, d) + call_text(p, func, args),
            None => "  "@ + call_text(p, func, args),
        },
        InstV::Br { cond, then_bb, else_bb } => br_text(p, cond, then_bb, else_bb),
        InstV::Jump { target } => jump_text(p, target),
        InstV::Ret { value: Some(v) } => "  ret "@ + op_text(p, v) + "\n"@,
        InstV::Ret { value: None } => "  ret\n"@,
        InstV::Phi { .. } => "  // phi (unexpected)\n"@,
        InstV::Asm { code, .. } => "  // asm(\""@ + code + "\")  ; not supported in Koopa IR\n"@,
    }
}

/// An instruction that allocates a variable.
pub open spec fn alloc_text(p: ProgV, dest: usize, ty: IrType) -> Seq<char> {
    "  "@ + p.global_names[dest as int] + " = alloc "@ + ir::type_text(ty) + "\n"@
}

/// An instruction that loads a value.
pub open spec fn load_text(p: ProgV, dest: usize, src: IrOperand) -> Seq<char> {
    "  "@ + p.local_names[dest as int] + " = load "@ + op_text(p, src) + "\n"@
}

/// The result of a call.
pub open spec fn dest_text(p: ProgV, dest: usize) -> Seq<char> {
    "  "@ + p.local_names[dest as int] + " = "@
}

/// A conditional branch.
pub open spec fn br_text(p: ProgV, cond: IrOperand, then_bb: usize, else_bb: usize) -> Seq<char> {
    "  br "@ + op_text(p, cond) + ", "@ + p.block_names[then_bb as int] + ", "@
        + p.block_names[else_bb as int] + "\n"@
}

/// An unconditional branch.
pub open spec fn jump_text(p: ProgV, target: usize) -> Seq<char> {
    "  jump "@ + p.block_names[target as int] + "\n"@
}

/// A list of instructions.
pub open spec fn insts_text(p: ProgV, instrs: Seq<InstV>) -> Seq<char>
    decreases instrs.len(),
{
    if instrs.len() == 0 {
        Seq::empty()
    } else {
        insts_text(p, instrs.drop_last()) + inst_text(p, instrs.last())
    }
}

// ── Phis ─────────────────────────────────────────────────────────────────────

/// A copy that a phi asks for: the block it belongs to, its destination and its value.
pub struct MoveV {
    pub label: usize,
    pub dest: usize,
    pub value: IrOperand,
}

/// The copies that an instruction asks for.
pub open spec fn inst_moves(i: InstV) -> Seq<MoveV> {
    match i {
        InstV::Phi { dest, incoming } => incoming.map_values(
            |p: (IrOperand, usize)| MoveV { label: p.1, dest, value: p.0 },
        ),
        _ => Seq::empty(),
    }
}

/// The copies that a list of instructions asks for.
pub open spec fn insts_moves(instrs: Seq<InstV>) -> Seq<MoveV>
    decreases instrs.len(),
{
    if instrs.len() == 0 {
        Seq::empty()
    } else {
        insts_moves(instrs.drop_last()) + inst_moves(instrs.last())
    }
}

/// The copies that the phis of some blocks ask for.
pub open spec fn blocks_moves(blocks: Seq<BlockV>) -> Seq<MoveV>
    decreases blocks.len(),
{
    if blocks.len() == 0 {
        Seq::empty()
    } else {
        blocks_moves(blocks.drop_last()) + insts_moves(blocks.last().instrs)
    }
}

/// The copies among some that belong to the block at a position.
pub open spec fn moves_to(blocks: Seq<BlockV>, moves: Seq<MoveV>, k: int) -> Seq<InstV>
    decreases moves.len(),
{
    if moves.len() == 0 {
        Seq::empty()
    } else {
        let before = moves_to(blocks, moves.drop_last(), k);
        let m = moves.last();
        if cfg::label_position(blocks, m.label) == Some(k as usize) {
            before.push(
                InstV::Arith {
                    dest: m.dest,
                    op: IrArithOp::Add,
                    lhs: m.value,
                    rhs: IrOperand::Int(0),
                },
            )
        } else {
            before
        }
    }
}

/// A list of instructions with others put in before the last.
pub open spec fn before_last(instrs: Seq<InstV>, more: Seq<InstV>) -> Seq<InstV> {
    if instrs.len() == 0 {
        more
    } else {
        (instrs.drop_last() + more).push(instrs.last())
    }
}

/// A list of instructions without phis.
pub open spec fn without_phis(instrs: Seq<InstV>) -> Seq<InstV> {
    instrs.filter(|i: InstV| !(i is Phi))
}

/// The instructions that are written for the block at a position.
pub open spec fn written(blocks: Seq<BlockV>, k: int) -> Seq<InstV> {
    without_phis(before_last(blocks[k].instrs, moves_to(blocks, blocks_moves(blocks), k)))
}

// ── Functions and programs ───────────────────────────────────────────────────

/// The first `n` blocks of a function.
pub open spec fn blocks_text(p: ProgV, blocks: Seq<BlockV>, n: int) -> Seq<char>
    decreases n,
{
    if n <= 0 {
        Seq::empty()
    } else {
        blocks_text(p, blocks, n - 1) + (p.block_names[blocks[n - 1].label as int] + ":\n"@)
            + insts_text(p, written(blocks, n - 1))
    }
}

/// The parameters of a function.
pub open spec fn params_text(p: ProgV, params: Seq<(usize, IrType)>) -> Seq<char> {
    text::join(
        params.map_values(
            |q: (usize, IrType)| p.global_names[q.0 as int] + ": "@ + ir::type_text(q.1),
        ),
        ", "@,
    )
}

/// A function.
pub open spec fn func_text(p: ProgV, f: FuncV) -> Seq<char> {
    "fun @"@ + p.func_names[f.name as int] + "("@ + params_text(p, f.params) + ")"@ + ret_text(
        f.ret_type,
    ) + " {\n"@ + blocks_text(p, f.blocks, f.blocks.len() as int) + "}\n"@
}

/// The first `n` global variables of a program.
pub open spec fn globals_text(p: ProgV, n: int) -> Seq<char>
    decreases n,
{
    if n <= 0 {
        Seq::empty()
    } else {
        globals_text(p, n - 1) + global_text(p, p.globals[n - 1])
    }
}

/// The first `n` function declarations of a program.
pub open spec fn decls_text(p: ProgV, n: int) -> Seq<char>
    decreases n,
{
    if n <= 0 {
        Seq::empty()
    } else {
        decls_text(p, n - 1) + decl_text(p, p.func_decls[n - 1])
    }
}

/// The first `n` functions of a program.
pub open spec fn funcs_text(p: ProgV, n: int) -> Seq<char>
    decreases n,
{
    if n <= 0 {
        Seq::empty()
    } else {
        funcs_text(p, n - 1) + func_text(p, p.funcs[n - 1])
    }
}

/// A program: global variables, then declarations, then functions.
pub open spec fn koopa(p: ProgV) -> Seq<char> {
    globals_text(p, p.globals.len() as int) + decls_text(p, p.func_decls.len() as int) + funcs_text(
        p,
        p.funcs.len() as int,
    )
}

/// What is written for a block holds no phi.
pub proof fn written_has_no_phi(blocks: Seq<BlockV>, k: int)
    ensures
        forall|i: int|
            0 <= i < written(blocks, k).len() ==> !(#[trigger] written(blocks, k)[i] is Phi),
{
    let all = before_last(blocks[k].instrs, moves_to(blocks, blocks_moves(blocks), k));
    all.filter_lemma(|i: InstV| !(i is Phi));
}

// ── Writing ──────────────────────────────────────────────────────────────────

/// Writes a whole program.
pub fn emit_koopa(program: &IrProgram) -> (r: String)
    requires
        named(program@),
    ensures
        r@ == koopa(program@),
{
    cat3(
        emit_globals(program).as_str(),
        emit_decls(program).as_str(),
        emit_funcs(program).as_str(),
    )
}

fn emit_globals(program: &IrProgram) -> (r: String)
    requires
        named(program@),
    ensures
        r@ == globals_text(program@, program@.globals.len() as int),
{
    let mut out = String::new();
    let mut i: usize = 0;
    while i < program.globals.len()
        invariant
            i <= program.globals.len(),
            named(program@),
            out@ == globals_text(program@, i as int),
        decreases program.globals.len() - i,
    {
        assert(program@.globals[i as int] == program.globals@[i as int]@);
        out.append(format_global(program, &program.globals[i]).as_str());
        i = i + 1;
    }
    out
}

fn emit_decls(program: &IrProgram) -> (r: String)
    requires
        named(program@),
    ensures
        r@ == decls_text(program@, program@.func_decls.len() as int),
{
    let mut out = String::new();
    let mut i: usize = 0;
    while i < program.func_decls.len()
        invariant
            i <= program.func_decls.len(),
            named(program@),
            out@ == decls_text(program@, i as int),
        decreases program.func_decls.len() - i,
    {
        assert(program@.func_decls[i as int] == program.func_decls@[i as int]@);
        out.append(format_func_decl(program, &program.func_decls[i]).as_str());
        i = i + 1;
    }
    out
}

fn emit_funcs(program: &IrProgram) -> (r: String)
    requires
        named(program@),
    ensures
        r@ == funcs_text(program@, program@.funcs.len() as int),
{
    let mut out = String::new();
    let mut i: usize = 0;
    while i < program.funcs.len()
        invariant
            i <= program.funcs.len(),
            named(program@),
            out@ == funcs_text(program@, i as int),
        decreases program.funcs.len() - i,
    {
        assert(program@.funcs[i as int] == program.funcs@[i as int]@);
        out.append(format_function(program, &program.funcs[i]).as_str());
        i = i + 1;
    }
    out
}

fn is_int(ty: &IrType) -> (r: bool)
    ensures
        r == (*ty == IrType::I32),
{
    matches!(ty, IrType::I32)
}

fn format_global(program: &IrProgram, g: &IrGlobal) -> (r: String)
    requires
        g@.name < program@.global_names.len(),
    ensures
        r@ == global_text(program@, g@),
{
    let init = match &g.init {
        IrGlobalInit::Zero => "zeroinit".to_owned(),
        IrGlobalInit::Values(vals) => {
            if vals.len() == 1 && is_int(&g.ty) {
                dec_i32(vals[0])
            } else {
                let mut pos: usize = 0;
                format_nested_init(&g.ty, vals, &mut pos, Ghost(0))
            }
        },
    };
    cat7(
        "global ",
        program.global_name(g.name),
        " = alloc ",
        g.ty.text().as_str(),
        ", ",
        init.as_str(),
        "\n",
    )
}

/// The initial value of a type; `pos` is the position of the next value, or the end.
#[verifier::loop_isolation(false)]
pub(crate) fn format_nested_init(ty: &IrType, vals: &Vec<i32>, pos: &mut usize, Ghost(at): Ghost<int>) -> (r:
    String)
    requires
        0 <= *old(pos) <= vals@.len(),
        at >= *old(pos),
        *old(pos) < vals@.len() ==> at == *old(pos),
    ensures
        r@ == nested_init(*ty, vals@, at).0,
        *final(pos) <= vals@.len(),
        nested_init(*ty, vals@, at).1 >= *final(pos),
        *final(pos) < vals@.len() ==> nested_init(*ty, vals@, at).1 == *final(pos),
    decreases ty,
{
    match ty {
        IrType::Array(inner, len) => {
            let element: &IrType = &*inner;
            let mut items: Vec<String> = Vec::new();
            let mut n: u32 = 0;
            let ghost mut cur: int = at;
            assert(text::texts(items@) =~= Seq::empty());
            while n < *len
                invariant
                    n <= *len,
                    *pos <= vals@.len(),
                    cur >= *pos,
                    *pos < vals@.len() ==> cur == *pos,
                    (text::texts(items@), cur) == nested_items(*element, n as int, vals@, at),
                decreases *len - n,
            {
                let item = format_nested_init(element, vals, pos, Ghost(cur));
                proof {
                    cur = nested_init(*element, vals@, cur).1;
                }
                items.push(item);
                n = n + 1;
            }
            cat3("{", join_strings(&items, ", ").as_str(), "}")
        },
        _ => {
            let v: i32 = if *pos < vals.len() {
                vals[*pos]
            } else {
                0
            };
            if *pos < vals.len() {
                *pos = *pos + 1;
            }
            dec_i32(v)
        },
    }
}

fn format_ret(ty: &IrType) -> (r: String)
    ensures
        r@ == ret_text(*ty),
{
    if ty.is_void() {
        String::new()
    } else {
        cat2(": ", ty.text().as_str())
    }
}

#[verifier::loop_isolation(false)]
fn format_func_decl(program: &IrProgram, decl: &IrFuncDecl) -> (r: String)
    requires
        decl@.name < program@.func_names.len(),
    ensures
        r@ == decl_text(program@, decl@),
{
    let mut params: Vec<String> = Vec::new();
    let ghost all = decl.param_types@.map_values(|t: IrType| ir::type_text(t));
    let mut i: usize = 0;
    assert(text::texts(params@) =~= all.take(0));
    while i < decl.param_types.len()
        invariant
            i <= decl.param_types.len(),
            text::texts(params@) == all.take(i as int),
        decreases decl.param_types.len() - i,
    {
        params.push(decl.param_types[i].text());
        i = i + 1;
        assert(all.take(i as int) =~= all.take(i - 1).push(all[i - 1]));
    }
    assert(all.take(i as int) =~= all);
    cat7(
        "decl @",
        program.func_name(decl.name),
        "(",
        join_strings(&params, ", ").as_str(),
        ")",
        format_ret(&decl.ret_type).as_str(),
        "\n",
    )
}

fn format_op(program: &IrProgram, op: IrOperand) -> (r: String)
    ensures
        r@ == op_text(program@, op),
{
    op.display(program.local_names.as_slice(), program.global_names.as_slice())
}

fn format_two_op(program: &IrProgram, dest: usize, op: &str, lhs: IrOperand, rhs: IrOperand) -> (r:
    String)
    requires
        dest < program@.local_names.len(),
    ensures
        r@ == two_op_text(program@, dest, op@, lhs, rhs),
{
    let head = cat8(
        "  ",
        program.local_name(dest),
        " = ",
        op,
        " ",
        format_op(program, lhs).as_str(),
        ", ",
        format_op(program, rhs).as_str(),
    );
    cat2(head.as_str(), "\n")
}

#[verifier::loop_isolation(false)]
fn format_call(program: &IrProgram, func: usize, args: &Vec<IrOperand>) -> (r: String)
    requires
        func < program@.func_names.len(),
    ensures
        r@ == call_text(program@, func, args@),
{
    let mut items: Vec<String> = Vec::new();
    let ghost p = program@;
    let ghost all = args@.map_values(|a: IrOperand| op_text(p, a));
    let mut i: usize = 0;
    assert(text::texts(items@) =~= all.take(0));
    while i < args.len()
        invariant
            i <= args.len(),
            text::texts(items@) == all.take(i as int),
        decreases args.len() - i,
    {
        items.push(format_op(program, args[i]));
        i = i + 1;
        assert(all.take(i as int) =~= all.take(i - 1).push(all[i - 1]));
    }
    assert(all.take(i as int) =~= all);
    cat5(
        "call @",
        program.func_name(func),
        "(",
        join_strings(&items, ", ").as_str(),
        ")\n",
    )
}

/// Writes an instruction on a line of its own.
fn format_inst(program: &IrProgram, inst: &IrInst) -> (r: String)
    requires
        inst_named(program@, inst@),
    ensures
        r@ == inst_text(program@, inst@),
{
    match inst {
        IrInst::Alloc { dest, ty } => cat5(
            "  ",
            program.global_name(*dest),
            " = alloc ",
            ty.text().as_str(),
            "\n",
        ),
        IrInst::Load { dest, src } => cat5(
            "  ",
            program.local_name(*dest),
            " = load ",
            format_op(program, *src).as_str(),
            "\n",
        ),
        IrInst::Store { value, ptr } => cat5(
            "  store ",
            format_op(program, *value).as_str(),
            ", ",
            format_op(program, *ptr).as_str(),
            "\n",
        ),
        IrInst::Arith { dest, op, lhs, rhs } => format_two_op(
            program,
            *dest,
            op.text().as_str(),
            *lhs,
            *rhs,
        ),
        IrInst::Icmp { dest, op, lhs, rhs } => format_two_op(
            program,
            *dest,
            op.text().as_str(),
            *lhs,
            *rhs,
        ),
        IrInst::GetPtr { dest, ptr, index, .. } => format_two_op(
            program,
            *dest,
            "getptr",
            *ptr,
            *index,
        ),
        IrInst::GetElemPtr { dest, ptr, index, .. } => format_two_op(
            program,
            *dest,
            "getelemptr",
            *ptr,
            *index,
        ),
        IrInst::Call { dest, func, args } => {
            let call = format_call(program, *func, args);
            match dest {
                Some(d) => cat4("  ", program.local_name(*d), " = ", call.as_str()),
                None => cat2("  ", call.as_str()),
            }
        },
        IrInst::Br { cond, then_bb, else_bb } => cat7(
            "  br ",
            format_op(program, *cond).as_str(),
            ", ",
            program.block_name(*then_bb),
            ", ",
            program.block_name(*else_bb),
            "\n",
        ),
        IrInst::Jump { target } => cat3("  jump ", program.block_name(*target), "\n"),
        IrInst::Ret { value } => match value {
            Some(v) => cat3("  ret ", format_op(program, *v).as_str(), "\n"),
            None => "  ret\n".to_owned(),
        },
        IrInst::Phi { .. } => "  // phi (unexpected)\n".to_owned(),
        IrInst::Asm { code, .. } => cat3(
            "  // asm(\"",
            code.as_str(),
            "\")  ; not supported in Koopa IR\n",
        ),
    }
}

/// A copy that a phi asks for.
pub struct Move {
    pub label: usize,
    pub dest: usize,
    pub value: IrOperand,
}

impl View for Move {
    type V = MoveV;

    open spec fn view(&self) -> MoveV {
        MoveV { label: self.label, dest: self.dest, value: self.value }
    }
}

/// The views of a list of copies.
pub open spec fn moves_view(v: Seq<Move>) -> Seq<MoveV> {
    v.map_values(|m: Move| m@)
}

#[verifier::loop_isolation(false)]
fn add_inst_moves(moves: &mut Vec<Move>, inst: &IrInst)
    ensures
        moves_view(final(moves)@) == moves_view(old(moves)@) + inst_moves(inst@),
{
    let ghost start = moves_view(moves@);
    let ghost all = inst_moves(inst@);
    if let IrInst::Phi { dest, incoming } = inst {
        let mut i: usize = 0;
        assert(moves_view(moves@) =~= start + all.take(0));
        while i < incoming.len()
            invariant
                i <= incoming.len(),
                moves_view(moves@) == start + all.take(i as int),
            decreases incoming.len() - i,
        {
            let ghost before = moves@;
            moves.push(Move { label: incoming[i].1, dest: *dest, value: incoming[i].0 });
            assert(moves_view(moves@) =~= moves_view(before).push(all[i as int]));
            i = i + 1;
            assert(start + all.take(i as int) =~= (start + all.take(i - 1)).push(all[i - 1]));
        }
        assert(all.take(i as int) =~= all);
    } else {
        assert(start + all =~= start);
    }
}

/// The copies that the phis of some blocks ask for.
#[verifier::loop_isolation(false)]
pub(crate) fn collect_moves(blocks: &Vec<IrBlock>) -> (r: Vec<Move>)
    ensures
        moves_view(r@) == blocks_moves(ir::blocks_view(blocks@)),
{
    let mut moves: Vec<Move> = Vec::new();
    let ghost all = ir::blocks_view(blocks@);
    let mut b: usize = 0;
    assert(moves_view(moves@) =~= blocks_moves(all.take(0)));
    while b < blocks.len()
        invariant
            b <= blocks.len(),
            moves_view(moves@) == blocks_moves(all.take(b as int)),
        decreases blocks.len() - b,
    {
        let ghost start = moves_view(moves@);
        let instrs = &blocks[b].instrs;
        let ghost list = ir::insts(instrs@);
        let mut i: usize = 0;
        assert(start =~= start + insts_moves(list.take(0)));
        while i < instrs.len()
            invariant
                i <= instrs.len(),
                moves_view(moves@) == start + insts_moves(list.take(i as int)),
            decreases instrs.len() - i,
        {
            assert(list[i as int] == instrs@[i as int]@);
            assert(list.take(i + 1).drop_last() =~= list.take(i as int));
            add_inst_moves(&mut moves, &instrs[i]);
            i = i + 1;
            assert(moves_view(moves@) =~= start + insts_moves(list.take(i as int)));
        }
        assert(list.take(i as int) =~= list);
        assert(all[b as int] == blocks@[b as int]@);
        assert(all.take(b + 1).drop_last() =~= all.take(b as int));
        b = b + 1;
    }
    assert(all.take(b as int) =~= all);
    moves
}

/// Adds the copies that belong to the block at a position.
#[verifier::loop_isolation(false)]
fn add_moves_to(
    out: &mut Vec<IrInst>,
    moves: &Vec<Move>,
    index: &HashMap<usize, usize>,
    k: usize,
    Ghost(blocks): Ghost<Seq<BlockV>>,
)
    requires
        cfg::indexes(index@, blocks),
    ensures
        ir::insts(final(out)@) == ir::insts(old(out)@) + moves_to(
            blocks,
            moves_view(moves@),
            k as int,
        ),
{
    let ghost start = ir::insts(out@);
    let ghost all = moves_view(moves@);
    let mut i: usize = 0;
    assert(start =~= start + moves_to(blocks, all.take(0), k as int));
    while i < moves.len()
        invariant
            i <= moves.len(),
            ir::insts(out@) == start + moves_to(blocks, all.take(i as int), k as int),
        decreases moves.len() - i,
    {
        let m = &moves[i];
        assert(all[i as int] == m@);
        assert(all.take(i + 1).drop_last() =~= all.take(i as int));
        assert(cfg::entry(index@, m.label) == cfg::label_position(blocks, m.label));
        let here = match index.get(&m.label) {
            Some(pos) => *pos == k,
            None => false,
        };
        if here {
            out.push(
                IrInst::Arith {
                    dest: m.dest,
                    op: IrArithOp::Add,
                    lhs: m.value,
                    rhs: IrOperand::Int(0),
                },
            );
        }
        i = i + 1;
        assert(ir::insts(out@) =~= start + moves_to(blocks, all.take(i as int), k as int));
    }
    assert(all.take(i as int) =~= all);
}

/// The instructions of a block with the copies that belong to it.
#[verifier::loop_isolation(false)]
fn with_moves(
    block: &IrBlock,
    moves: &Vec<Move>,
    index: &HashMap<usize, usize>,
    k: usize,
    Ghost(blocks): Ghost<Seq<BlockV>>,
) -> (r: Vec<IrInst>)
    requires
        cfg::indexes(index@, blocks),
    ensures
        ir::insts(r@) == before_last(
            block@.instrs,
            moves_to(blocks, moves_view(moves@), k as int),
        ),
{
    let mut out: Vec<IrInst> = Vec::new();
    let ghost list = block@.instrs;
    let n = block.instrs.len();
    assert(n == list.len());
    let mut i: usize = 0;
    assert(ir::insts(out@) =~= list.take(0));
    while i + 1 < n
        invariant
            i <= n,
            n > 0 ==> i < n,
            ir::insts(out@) == list.take(i as int),
        decreases n - i,
    {
        out.push(block.instrs[i].clone());
        i = i + 1;
        assert(list.take(i as int) =~= list.take(i - 1).push(list[i - 1]));
    }
    add_moves_to(&mut out, moves, index, k, Ghost(blocks));
    if n > 0 {
        assert(list.take(i as int) =~= list.drop_last());
        out.push(block.instrs[n - 1].clone());
    } else {
        assert(ir::insts(out@) =~= moves_to(blocks, moves_view(moves@), k as int));
    }
    out
}

/// Writes the instructions that are not phis.
#[verifier::loop_isolation(false)]
fn format_insts(program: &IrProgram, instrs: &Vec<IrInst>) -> (r: String)
    requires
        forall|i: int|
            0 <= i < instrs@.len() ==> inst_named(program@, (#[trigger] instrs@[i])@),
    ensures
        r@ == insts_text(program@, without_phis(ir::insts(instrs@))),
{
    let mut out = String::new();
    let ghost p = program@;
    let ghost list = ir::insts(instrs@);
    let mut i: usize = 0;
    reveal(Seq::filter);
    assert(list.take(0) =~= Seq::empty());
    while i < instrs.len()
        invariant
            i <= instrs.len(),
            out@ == insts_text(p, without_phis(list.take(i as int))),
        decreases instrs.len() - i,
    {
        let inst = &instrs[i];
        assert(list[i as int] == inst@);
        let ghost before = without_phis(list.take(i as int));
        let ghost next = without_phis(list.take(i + 1));
        assert(list.take(i + 1).drop_last() =~= list.take(i as int));
        if !matches!(inst, IrInst::Phi { .. }) {
            assert(next == before.push(inst@));
            assert(next.drop_last() =~= before);
            out.append(format_inst(program, inst).as_str());
        }
        i = i + 1;
    }
    assert(list.take(i as int) =~= list);
    out
}

/// The copies of phis have names where the phis do.
proof fn moves_named(p: ProgV, blocks: Seq<BlockV>, moves: Seq<MoveV>, k: int)
    requires
        forall|i: int| 0 <= i < moves.len() ==> (#[trigger] moves[i]).dest < p.local_names.len(),
    ensures
        forall|i: int|
            0 <= i < moves_to(blocks, moves, k).len() ==> inst_named(
                p,
                #[trigger] moves_to(blocks, moves, k)[i],
            ),
    decreases moves.len(),
{
    if moves.len() > 0 {
        let front = moves.drop_last();
        assert forall|i: int| 0 <= i < front.len() implies (#[trigger] front[i]).dest
            < p.local_names.len() by {
            assert(front[i] == moves[i]);
        }
        moves_named(p, blocks, front, k);
        let before = moves_to(blocks, front, k);
        let all = moves_to(blocks, moves, k);
        assert forall|i: int| 0 <= i < all.len() implies inst_named(p, #[trigger] all[i]) by {
            if i < before.len() {
                assert(all[i] == before[i]);
            } else {
                assert(moves[moves.len() - 1].dest < p.local_names.len());
            }
        }
    }
}

proof fn insts_moves_named(p: ProgV, instrs: Seq<InstV>)
    requires
        forall|i: int| 0 <= i < instrs.len() ==> inst_named(p, #[trigger] instrs[i]),
    ensures
        forall|i: int|
            0 <= i < insts_moves(instrs).len() ==> (#[trigger] insts_moves(instrs)[i]).dest
                < p.local_names.len(),
    decreases instrs.len(),
{
    if instrs.len() > 0 {
        let front = instrs.drop_last();
        assert forall|i: int| 0 <= i < front.len() implies inst_named(p, #[trigger] front[i]) by {
            assert(front[i] == instrs[i]);
        }
        insts_moves_named(p, front);
        let before = insts_moves(front);
        let all = insts_moves(instrs);
        assert(inst_named(p, instrs[instrs.len() - 1]));
        assert forall|i: int| 0 <= i < all.len() implies (#[trigger] all[i]).dest
            < p.local_names.len() by {
            if i < before.len() {
                assert(all[i] == before[i]);
            } else {
                assert(all[i] == inst_moves(instrs.last())[i - before.len()]);
            }
        }
    }
}

proof fn blocks_moves_named(p: ProgV, blocks: Seq<BlockV>)
    requires
        forall|b: int| 0 <= b < blocks.len() ==> block_named(p, #[trigger] blocks[b]),
    ensures
        forall|i: int|
            0 <= i < blocks_moves(blocks).len() ==> (#[trigger] blocks_moves(blocks)[i]).dest
                < p.local_names.len(),
    decreases blocks.len(),
{
    if blocks.len() > 0 {
        let front = blocks.drop_last();
        assert forall|b: int| 0 <= b < front.len() implies block_named(p, #[trigger] front[b]) by {
            assert(front[b] == blocks[b]);
        }
        blocks_moves_named(p, front);
        assert(block_named(p, blocks[blocks.len() - 1]));
        insts_moves_named(p, blocks.last().instrs);
        let before = blocks_moves(front);
        let all = blocks_moves(blocks);
        assert forall|i: int| 0 <= i < all.len() implies (#[trigger] all[i]).dest
            < p.local_names.len() by {
            if i < before.len() {
                assert(all[i] == before[i]);
            } else {
                assert(all[i] == insts_moves(blocks.last().instrs)[i - before.len()]);
            }
        }
    }
}

#[verifier::loop_isolation(false)]
fn format_params(program: &IrProgram, params: &Vec<(usize, IrType)>) -> (r: String)
    requires
        forall|i: int|
            0 <= i < params@.len() ==> (#[trigger] params@[i]).0 < program@.global_names.len(),
    ensures
        r@ == params_text(program@, params@),
{
    let mut items: Vec<String> = Vec::new();
    let ghost p = program@;
    let ghost all = params@.map_values(
        |q: (usize, IrType)| p.global_names[q.0 as int] + ": "@ + ir::type_text(q.1),
    );
    let mut i: usize = 0;
    assert(text::texts(items@) =~= all.take(0));
    while i < params.len()
        invariant
            i <= params.len(),
            text::texts(items@) == all.take(i as int),
        decreases params.len() - i,
    {
        assert(params@[i as int].0 < p.global_names.len());
        items.push(cat3(program.global_name(params[i].0), ": ", params[i].1.text().as_str()));
        i = i + 1;
        assert(all.take(i as int) =~= all.take(i - 1).push(all[i - 1]));
    }
    assert(all.take(i as int) =~= all);
    join_strings(&items, ", ")
}

/// Writes a function.
#[verifier::loop_isolation(false)]
fn format_function(program: &IrProgram, func: &IrFunc) -> (r: String)
    requires
        func_named(program@, func@),
    ensures
        r@ == func_text(program@, func@),
{
    let ghost p = program@;
    let ghost blocks = func@.blocks;
    let index = index_blocks(&func.blocks);
    let moves = collect_moves(&func.blocks);
    proof {
        blocks_moves_named(p, blocks);
    }
    let mut body = String::new();
    let mut k: usize = 0;
    while k < func.blocks.len()
        invariant
            k <= func.blocks.len(),
            body@ == blocks_text(p, blocks, k as int),
        decreases func.blocks.len() - k,
    {
        let block = &func.blocks[k];
        assert(blocks[k as int] == block@);
        assert(block_named(p, blocks[k as int]));
        let instrs = with_moves(block, &moves, &index, k, Ghost(blocks));
        proof {
            let more = moves_to(blocks, moves_view(moves@), k as int);
            moves_named(p, blocks, blocks_moves(blocks), k as int);
            let list = block@.instrs;
            let all = before_last(list, more);
            assert forall|i: int| 0 <= i < instrs@.len() implies inst_named(
                p,
                (#[trigger] instrs@[i])@,
            ) by {
                assert(all[i] == instrs@[i]@);
                if list.len() > 0 {
                    if i < list.len() - 1 {
                        assert(all[i] == list[i]);
                    } else if i < all.len() - 1 {
                        assert(all[i] == more[i - (list.len() - 1)]);
                    } else {
                        assert(all[i] == list[list.len() - 1]);
                    }
                } else {
                    assert(all[i] == more[i]);
                }
            }
        }
        body.append(cat2(program.block_name(block.label), ":\n").as_str());
        body.append(format_insts(program, &instrs).as_str());
        k = k + 1;
    }
    assert(func@.params == func.params@);
    assert forall|i: int| 0 <= i < func.params@.len() implies (#[trigger] func.params@[i]).0
        < p.global_names.len() by {
        assert(func@.params[i].0 < p.global_names.len());
    }
    cat8(
        "fun @",
        program.func_name(func.name),
        "(",
        format_params(program, &func.params).as_str(),
        ")",
        format_ret(&func.ret_type).as_str(),
        " {\n",
        cat2(body.as_str(), "}\n").as_str(),
    )
}

// ── What can be written ──────────────────────────────────────────────────────

fn is_inst_named(program: &IrProgram, inst: &IrInst) -> (r: bool)
    ensures
        r == inst_named(program@, inst@),
{
    let locals = program.local_names.len();
    let blocks = program.block_names.len();
    match inst {
        IrInst::Alloc { dest, .. } => *dest < program.global_names.len(),
        IrInst::Load { dest, .. } => *dest < locals,
        IrInst::Arith { dest, .. } => *dest < locals,
        IrInst::Icmp { dest, .. } => *dest < locals,
        IrInst::GetPtr { dest, .. } => *dest < locals,
        IrInst::GetElemPtr { dest, .. } => *dest < locals,
        IrInst::Call { dest, func, .. } => *func < program.func_names.len() && match dest {
            Some(d) => *d < locals,
            None => true,
        },
        IrInst::Br { then_bb, else_bb, .. } => *then_bb < blocks && *else_bb < blocks,
        IrInst::Jump { target } => *target < blocks,
        IrInst::Phi { dest, .. } => *dest < locals,
        _ => true,
    }
}

#[verifier::loop_isolation(false)]
fn is_block_named(program: &IrProgram, block: &IrBlock) -> (r: bool)
    ensures
        r == block_named(program@, block@),
{
    if block.label >= program.block_names.len() {
        return false;
    }
    let ghost list = block@.instrs;
    let mut i: usize = 0;
    while i < block.instrs.len()
        invariant
            i <= block.instrs.len(),
            forall|k: int| 0 <= k < i ==> inst_named(program@, #[trigger] list[k]),
        decreases block.instrs.len() - i,
    {
        assert(list[i as int] == block.instrs@[i as int]@);
        if !is_inst_named(program, &block.instrs[i]) {
            return false;
        }
        i = i + 1;
    }
    true
}

#[verifier::loop_isolation(false)]
fn is_func_named(program: &IrProgram, func: &IrFunc) -> (r: bool)
    ensures
        r == func_named(program@, func@),
{
    if func.name >= program.func_names.len() {
        return false;
    }
    let mut i: usize = 0;
    while i < func.params.len()
        invariant
            i <= func.params.len(),
            forall|k: int|
                0 <= k < i ==> (#[trigger] func@.params[k]).0 < program@.global_names.len(),
        decreases func.params.len() - i,
    {
        if func.params[i].0 >= program.global_names.len() {
            assert(func@.params[i as int].0 >= program@.global_names.len());
            return false;
        }
        i = i + 1;
    }
    let mut b: usize = 0;
    while b < func.blocks.len()
        invariant
            b <= func.blocks.len(),
            forall|k: int| 0 <= k < b ==> block_named(program@, #[trigger] func@.blocks[k]),
        decreases func.blocks.len() - b,
    {
        assert(func@.blocks[b as int] == func.blocks@[b as int]@);
        if !is_block_named(program, &func.blocks[b]) {
            return false;
        }
        b = b + 1;
    }
    true
}

/// Whether every index in a program has a name.
#[verifier::loop_isolation(false)]
pub fn is_named(program: &IrProgram) -> (r: bool)
    ensures
        r == named(program@),
{
    let mut i: usize = 0;
    while i < program.globals.len()
        invariant
            i <= program.globals.len(),
            forall|k: int|
                0 <= k < i ==> (#[trigger] program@.globals[k]).name < program@.global_names.len(),
        decreases program.globals.len() - i,
    {
        assert(program@.globals[i as int] == program.globals@[i as int]@);
        if program.globals[i].name >= program.global_names.len() {
            return false;
        }
        i = i + 1;
    }
    let mut d: usize = 0;
    while d < program.func_decls.len()
        invariant
            d <= program.func_decls.len(),
            forall|k: int|
                0 <= k < d ==> (#[trigger] program@.func_decls[k]).name < program@.func_names.len(),
        decreases program.func_decls.len() - d,
    {
        assert(program@.func_decls[d as int] == program.func_decls@[d as int]@);
        if program.func_decls[d].name >= program.func_names.len() {
            return false;
        }
        d = d + 1;
    }
    let mut f: usize = 0;
    while f < program.funcs.len()
        invariant
            f <= program.funcs.len(),
            forall|k: int| 0 <= k < f ==> func_named(program@, #[trigger] program@.funcs[k]),
        decreases program.funcs.len() - f,
    {
        assert(program@.funcs[f as int] == program.funcs@[f as int]@);
        if !is_func_named(program, &program.funcs[f]) {
            return false;
        }
        f = f + 1;
    }
    true
}

} // verus!

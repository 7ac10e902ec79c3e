//! The runtime library, and the way from a syntax tree to output text.

use crate::ast::{CompUnit, GlobalItemV, Type};
use crate::ast_to_ir::AstToIr;
use crate::error::{self, fail, CompilerResult, ErrorView};
use crate::ir::{self, BlockV, FuncV, InstV, IrOperand, IrProgram, IrType, ProgV};
use crate::ir_to_koopa::{self, emit_koopa};
use crate::ir_to_riscv::{self, emit_riscv};
use crate::links;
use crate::opt::inline::Inline;
use crate::opt::{self, IrProgramPass, PassManager, StandardPass};
use crate::pass_links;
use crate::promotion;
use crate::ssa::{self, has_lowering_room, has_room, lower_phis, mem2reg};
use crate::text::{self, cat2, dec_usize, str_eq};
use crate::translate;
use crate::translation_links;
use crate::OutputMode;
use vstd::prelude::*;

verus! {

broadcast use {crate::ir::funcs_push, crate::text::texts_push};

// ── The runtime library ──────────────────────────────────────────────────────

/// What a function of the runtime library returns; `None` for other names.
pub open spec fn lib_ret(name: Seq<char>) -> Option<Type> {
    if name == "getint"@ || name == "getch"@ || name == "getarray"@ {
        Some(Type::Int)
    } else if name == "putint"@ || name == "putch"@ || name == "putarray"@ || name == "starttime"@
        || name == "stoptime"@ {
        Some(Type::Void)
    } else {
        None
    }
}

/// The type of a pointer to integers.
pub open spec fn int_ptr() -> IrType {
    IrType::Ptr(Box::new(IrType::I32))
}

/// What a function of the runtime library takes.
pub open spec fn lib_params(name: Seq<char>) -> Seq<IrType> {
    if name == "getarray"@ {
        seq![int_ptr()]
    } else if name == "putint"@ || name == "putch"@ {
        seq![IrType::I32]
    } else if name == "putarray"@ {
        seq![IrType::I32, int_ptr()]
    } else {
        Seq::empty()
    }
}

/// Whether a name is that of a function of the runtime library.
pub fn is_lib_func(name: &str) -> (r: bool)
    ensures
        r == (lib_ret(name@) is Some),
{
    lib_func_ret_type(name).is_some()
}

/// What a function of the runtime library returns.
pub fn lib_func_ret_type(name: &str) -> (r: Option<Type>)
    ensures
        r == lib_ret(name@),
{
    if str_eq(name, "getint") || str_eq(name, "getch") || str_eq(name, "getarray") {
        Some(Type::Int)
    } else if str_eq(name, "putint") || str_eq(name, "putch") || str_eq(name, "putarray") || str_eq(
        name,
        "starttime",
    ) || str_eq(name, "stoptime") {
        Some(Type::Void)
    } else {
        None
    }
}

/// What a function of the runtime library takes.
pub fn lib_func_params(name: &str) -> (r: Vec<IrType>)
    ensures
        r@ == lib_params(name@),
{
    let mut types: Vec<IrType> = Vec::new();
    if str_eq(name, "getarray") {
        types.push(IrType::Ptr(Box::new(IrType::I32)));
    } else if str_eq(name, "putint") || str_eq(name, "putch") {
        types.push(IrType::I32);
    } else if str_eq(name, "putarray") {
        types.push(IrType::I32);
        types.push(IrType::Ptr(Box::new(IrType::I32)));
    }
    assert(types@ =~= lib_params(name@));
    types
}

// ── From the tree to IR ──────────────────────────────────────────────────────

/// The inlining that every program goes through.
pub open spec fn inlining() -> Inline {
    Inline { max_instrs: 50 }
}

/// The passes that every function goes through.
pub open spec fn func_passes() -> Seq<StandardPass> {
    seq![StandardPass::ConstFold, StandardPass::DeadCodeElim, StandardPass::Gvn]
}

/// Whether the variables of some functions can be promoted.
pub open spec fn all_room(funcs: Seq<FuncV>) -> bool {
    forall|i: int| 0 <= i < funcs.len() ==> promotion::room(#[trigger] funcs[i])
}

/// Functions with their variables promoted.
pub open spec fn promoted_funcs(funcs: Seq<FuncV>) -> Seq<FuncV> {
    funcs.map_values(|f: FuncV| promotion::promoted(f).0)
}

/// Functions without phis.
pub open spec fn lowered_funcs(funcs: Seq<FuncV>) -> Seq<FuncV> {
    funcs.map_values(|f: FuncV| promotion::lowered(f))
}

/// The greatest index of an SSA value in some functions.
pub open spec fn funcs_max(funcs: Seq<FuncV>) -> int
    decreases funcs.len(),
{
    if funcs.len() == 0 {
        0
    } else {
        promotion::blocks_max(funcs.last().blocks, funcs_max(funcs.drop_last()))
    }
}

/// Names for SSA values up to an index: those that there are, and then the indices themselves.
pub open spec fn extended(names: Seq<Seq<char>>, max: int) -> Seq<Seq<char>>
    decreases max + 1 - names.len(),
{
    if names.len() > max {
        names
    } else {
        extended(names.push("%"@ + text::dec_nat(names.len())), max)
    }
}

/// A program with names for all SSA values.
pub open spec fn with_names(p: ProgV) -> ProgV {
    ProgV { local_names: extended(p.local_names, funcs_max(p.funcs)), ..p }
}

/// A program after all passes.
pub open spec fn optimized(p: ProgV) -> ProgV {
    opt::rounds(func_passes(), Seq::<Inline>::empty(), p, opt::MAX_ROUNDS as nat)
}

/// A program with its phis lowered.
pub open spec fn with_lowered(p: ProgV) -> ProgV {
    ProgV { funcs: lowered_funcs(p.funcs), ..p }
}

/// Whether the phis of some functions can be lowered.
pub open spec fn all_lowering_room(funcs: Seq<FuncV>) -> bool {
    forall|i: int| 0 <= i < funcs.len() ==> promotion::lowering_room(#[trigger] funcs[i])
}

/// A program after everything that follows the promotion of variables.
pub open spec fn finished(p: ProgV) -> Result<ProgV, ErrorView> {
    let q = with_names(optimized(p));
    if all_lowering_room(q.funcs) {
        Ok(with_names(with_lowered(q)))
    } else {
        Err(error::err_new("program too large"@))
    }
}

/// The optimized IR of a program.
pub open spec fn compiled(items: Seq<GlobalItemV>) -> Result<ProgV, ErrorView> {
    match translate::program(items) {
        Ok(p) => {
            let q = inlining().applied(p);
            if all_room(q.funcs) {
                finished(ProgV { funcs: promoted_funcs(q.funcs), ..q })
            } else {
                Err(error::err_new("program too large"@))
            }
        },
        Err(e) => Err(e),
    }
}

/// Promotes the variables of all functions. Returns whether there is room for that.
#[verifier::loop_isolation(false)]
fn promote_all(program: &mut IrProgram) -> (r: bool)
    ensures
        r == all_room(old(program)@.funcs),
        r ==> final(program)@ == (ProgV {
            funcs: promoted_funcs(old(program)@.funcs),
            ..old(program)@
        }),
{
    let ghost before = program@;
    let ghost want = promoted_funcs(before.funcs);
    let n = program.funcs.len();
    let mut i: usize = 0;
    while i < n
        invariant
            i <= n,
            program.funcs@.len() == n,
            program@ == (ProgV { funcs: program@.funcs, ..before }),
            forall|k: int| 0 <= k < i ==> promotion::room(#[trigger] before.funcs[k]),
            forall|k: int|
                0 <= k < n ==> (#[trigger] program@.funcs[k]) == if k < i {
                    want[k]
                } else {
                    before.funcs[k]
                },
        decreases n - i,
    {
        let ghost mid = program@.funcs;
        assert(mid[i as int] == program.funcs@[i as int]@);
        if !has_room(&program.funcs[i]) {
            assert(!promotion::room(before.funcs[i as int]));
            return false;
        }
        mem2reg(&mut program.funcs[i]);
        assert(program@.funcs =~= mid.update(i as int, want[i as int]));
        i = i + 1;
    }
    assert(program@.funcs =~= want);
    true
}

/// Lowers the phis of all functions. Returns whether there is room for that.
#[verifier::loop_isolation(false)]
fn lower_all(program: &mut IrProgram) -> (r: bool)
    ensures
        r == all_lowering_room(old(program)@.funcs),
        r ==> final(program)@ == with_lowered(old(program)@),
{
    let ghost before = program@;
    let ghost want = lowered_funcs(before.funcs);
    let n = program.funcs.len();
    let mut i: usize = 0;
    while i < n
        invariant
            i <= n,
            program.funcs@.len() == n,
            program@ == (ProgV { funcs: program@.funcs, ..before }),
            forall|k: int| 0 <= k < i ==> promotion::lowering_room(#[trigger] before.funcs[k]),
            forall|k: int|
                0 <= k < n ==> (#[trigger] program@.funcs[k]) == if k < i {
                    want[k]
                } else {
                    before.funcs[k]
                },
        decreases n - i,
    {
        let ghost mid = program@.funcs;
        assert(mid[i as int] == program.funcs@[i as int]@);
        if !has_lowering_room(&program.funcs[i]) {
            assert(!promotion::lowering_room(before.funcs[i as int]));
            return false;
        }
        lower_phis(&mut program.funcs[i]);
        assert(program@.funcs =~= mid.update(i as int, want[i as int]));
        i = i + 1;
    }
    assert(program@.funcs =~= want);
    true
}

/// Gives names to all SSA values.
#[verifier::loop_isolation(false)]
fn extend_names(program: &mut IrProgram)
    ensures
        final(program)@ == with_names(old(program)@),
{
    let ghost before = program@;
    let ghost funcs = before.funcs;
    let mut max: usize = 0;
    let mut i: usize = 0;
    while i < program.funcs.len()
        invariant
            i <= program.funcs.len(),
            max == funcs_max(funcs.take(i as int)),
        decreases program.funcs.len() - i,
    {
        assert(funcs[i as int] == program.funcs@[i as int]@);
        assert(funcs.take(i + 1).drop_last() =~= funcs.take(i as int));
        max = ssa::max_index(&program.funcs[i].blocks, max);
        i = i + 1;
    }
    assert(funcs.take(i as int) =~= funcs);
    while program.local_names.len() <= max
        invariant
            program@ == (ProgV { local_names: program@.local_names, ..before }),
            extended(before.local_names, max as int) == extended(
                program@.local_names,
                max as int,
            ),
        decreases max + 1 - program.local_names.len(),
    {
        let name = cat2("%", dec_usize(program.local_names.len()).as_str());
        program.local_names.push(name);
    }
}

/// Translates a tree and optimizes what comes out.
pub fn compile_to_ir(program: &CompUnit) -> (r: CompilerResult<IrProgram>)
    ensures
        match compiled(program.view()) {
            Ok(p) => r matches Ok(x) && x@ == p,
            Err(e) => r matches Err(x) && x@ == e,
        },
{
    let mut ir = AstToIr::new().gen_program(program)?;
    let inline = Inline::new();
    assert(inline == inlining());
    inline.run(&mut ir);
    if !promote_all(&mut ir) {
        return Err(fail("program too large"));
    }
    let mut pm: PassManager<StandardPass, Inline> = PassManager::new();
    pm.add_func_pass(StandardPass::ConstFold);
    pm.add_func_pass(StandardPass::DeadCodeElim);
    pm.add_func_pass(StandardPass::Gvn);
    assert(pm.func_seq() =~= func_passes());
    pm.run(&mut ir);
    extend_names(&mut ir);
    if !lower_all(&mut ir) {
        return Err(fail("program too large"));
    }
    extend_names(&mut ir);
    Ok(ir)
}

// ── What compiled programs refer to ──────────────────────────────────────────

/// The greatest index is no less than that of an instruction.
proof fn insts_max_covers(instrs: Seq<InstV>, least: int, i: int)
    requires
        0 <= i < instrs.len(),
    ensures
        ir::inst_dest(instrs[i]) matches Some(d) ==> d <= promotion::insts_max(instrs, least),
    decreases instrs.len(),
{
    let front = instrs.drop_last();
    let before = promotion::insts_max(front, least);
    if i < front.len() {
        insts_max_covers(front, least, i);
        assert(front[i] == instrs[i]);
    }
    ops_max_grows(
        ir::inst_operands(instrs.last()),
        match ir::inst_dest(instrs.last()) {
            Some(d) => promotion::greater(before, d as int),
            None => before,
        },
    );
}

pub(crate) proof fn ops_max_grows(ops: Seq<IrOperand>, least: int)
    ensures
        promotion::ops_max(ops, least) >= least,
    decreases ops.len(),
{
    if ops.len() > 0 {
        ops_max_grows(ops.drop_last(), least);
    }
}

pub(crate) proof fn insts_max_grows(instrs: Seq<InstV>, least: int)
    ensures
        promotion::insts_max(instrs, least) >= least,
    decreases instrs.len(),
{
    if instrs.len() > 0 {
        insts_max_grows(instrs.drop_last(), least);
        let before = promotion::insts_max(instrs.drop_last(), least);
        ops_max_grows(
            ir::inst_operands(instrs.last()),
            match ir::inst_dest(instrs.last()) {
                Some(d) => promotion::greater(before, d as int),
                None => before,
            },
        );
    }
}

proof fn blocks_max_covers(blocks: Seq<BlockV>, least: int, b: int, i: int)
    requires
        0 <= b < blocks.len(),
        0 <= i < blocks[b].instrs.len(),
    ensures
        ir::inst_dest(blocks[b].instrs[i]) matches Some(d) ==> d <= promotion::blocks_max(
            blocks,
            least,
        ),
    decreases blocks.len(),
{
    let front = blocks.drop_last();
    let before = promotion::blocks_max(front, least);
    if b < front.len() {
        assert(front[b] == blocks[b]);
        blocks_max_covers(front, least, b, i);
        insts_max_grows(blocks.last().instrs, before);
    } else {
        insts_max_covers(blocks.last().instrs, before, i);
    }
}

proof fn blocks_max_grows(blocks: Seq<BlockV>, least: int)
    ensures
        promotion::blocks_max(blocks, least) >= least,
    decreases blocks.len(),
{
    if blocks.len() > 0 {
        blocks_max_grows(blocks.drop_last(), least);
        insts_max_grows(blocks.last().instrs, promotion::blocks_max(blocks.drop_last(), least));
    }
}

proof fn funcs_max_covers(funcs: Seq<FuncV>, f: int, b: int, i: int)
    requires
        0 <= f < funcs.len(),
        0 <= b < funcs[f].blocks.len(),
        0 <= i < funcs[f].blocks[b].instrs.len(),
    ensures
        ir::inst_dest(funcs[f].blocks[b].instrs[i]) matches Some(d) ==> d <= funcs_max(funcs),
    decreases funcs.len(),
{
    let front = funcs.drop_last();
    if f < front.len() {
        assert(front[f] == funcs[f]);
        funcs_max_covers(front, f, b, i);
        blocks_max_grows(funcs.last().blocks, funcs_max(front));
    } else {
        blocks_max_covers(funcs.last().blocks, funcs_max(front), b, i);
    }
}

proof fn extended_reaches(names: Seq<Seq<char>>, max: int)
    ensures
        extended(names, max).len() > max,
    decreases max + 1 - names.len(),
{
    if names.len() <= max {
        extended_reaches(names.push("%"@ + text::dec_nat(names.len())), max);
    }
}

/// A program with names for all SSA values, which refers only to what is there, has a name for
/// every index.
proof fn linked_is_named(p: ProgV)
    requires
        links::linked(p),
        p.local_names.len() > funcs_max(p.funcs),
    ensures
        ir_to_koopa::named(p),
{
    let n = links::sizes(p);
    assert forall|f: int| 0 <= f < p.funcs.len() implies ir_to_koopa::func_named(
        p,
        #[trigger] p.funcs[f],
    ) by {
        let func = p.funcs[f];
        assert(links::func_linked(n, func));
        assert forall|b: int| 0 <= b < func.blocks.len() implies ir_to_koopa::block_named(
            p,
            #[trigger] func.blocks[b],
        ) by {
            let instrs = func.blocks[b].instrs;
            assert(links::insts_linked(n, func.blocks, instrs));
            assert forall|i: int| 0 <= i < instrs.len() implies ir_to_koopa::inst_named(
                p,
                #[trigger] instrs[i],
            ) by {
                assert(links::inst_linked(n, func.blocks, instrs[i]));
                funcs_max_covers(p.funcs, f, b, i);
            }
        }
    }
}

/// A compiled program refers only to what is there, and all its indices have names.
pub proof fn compiled_is_linked(items: Seq<GlobalItemV>)
    ensures
        compiled(items) matches Ok(p) ==> links::linked(p) && ir_to_koopa::named(p),
{
    if let Ok(p) = translate::program(items) {
        translation_links::translated_is_linked(items);
        let q = inlining().applied(p);
        pass_links::inlining_keeps_links(p, inlining().max_instrs);
        let n = links::sizes(q);
        if all_room(q.funcs) {
            let a = ProgV { funcs: promoted_funcs(q.funcs), ..q };
            pass_links::promotion_keeps_links(n, q.funcs);
            assert(links::linked(a));
            pass_links::rounds_keep_links(func_passes(), a, opt::MAX_ROUNDS as nat);
            let b = with_names(optimized(a));
            assert(links::linked(b));
            let c = with_lowered(b);
            pass_links::lowering_keeps_links(links::sizes(b), b.funcs);
            assert(links::linked(c));
            let d = with_names(c);
            extended_reaches(c.local_names, funcs_max(c.funcs));
            linked_is_named(d);
        }
    }
}

// ── From IR to text ──────────────────────────────────────────────────────────

/// The text of a program in a form of output; assembly has limits to the size of frames and
/// variables.
pub open spec fn written(p: ProgV, mode: OutputMode) -> Result<Seq<char>, ErrorView> {
    match mode {
        OutputMode::Koopa | OutputMode::KoopaIr => Ok(ir_to_koopa::koopa(p)),
        OutputMode::Riscv | OutputMode::RiscvIr => if ir_to_riscv::fits(p) {
            Ok(ir_to_riscv::riscv(p))
        } else {
            Err(error::err_new("program too large"@))
        },
    }
}

/// The output for a program.
pub open spec fn generated(items: Seq<GlobalItemV>, mode: OutputMode) -> Result<
    Seq<char>,
    ErrorView,
> {
    match compiled(items) {
        Ok(p) => written(p, mode),
        Err(e) => Err(e),
    }
}

/// Compiles a tree to output text.
pub fn generate(program: &CompUnit, mode: OutputMode) -> (r: CompilerResult<String>)
    ensures
        match generated(program.view(), mode) {
            Ok(s) => r matches Ok(x) && x@ == s,
            Err(e) => r matches Err(x) && x@ == e,
        },
{
    let ir = compile_to_ir(program)?;
    proof {
        compiled_is_linked(program.view());
        ir_to_riscv::linked_is_ready(ir@);
    }
    match mode {
        OutputMode::Koopa | OutputMode::KoopaIr => Ok(emit_koopa(&ir)),
        OutputMode::Riscv | OutputMode::RiscvIr => {
            if ir_to_riscv::is_ready(&ir) {
                Ok(emit_riscv(&ir))
            } else {
                Err(fail("program too large"))
            }
        },
    }
}

} // verus!

//! The intermediate representation of a program.
//!
//! Operands and blocks are integer indices; the names live in the tables of [`IrProgram`]. Every
//! type that holds a vector or a string has a view with sequences in their place.

use crate::text::{self, cat2, cat5, dec_i32, dec_usize, find_string};
use vstd::prelude::*;

verus! {

broadcast use crate::text::texts_push;

// ── Types ────────────────────────────────────────────────────────────────────

#[derive(Debug, PartialEq, Eq, Hash)]
pub enum IrType {
    I32,
    Void,
    Ptr(Box<IrType>),
    /// Element type and length.
    Array(Box<IrType>, u32),
}

impl Clone for IrType {
    fn clone(&self) -> (r: Self)
        ensures
            r == *self,
        decreases self,
    {
        match self {
            IrType::I32 => IrType::I32,
            IrType::Void => IrType::Void,
            IrType::Ptr(t) => {
                let inner: &IrType = &*t;
                IrType::Ptr(Box::new(inner.clone()))
            },
            IrType::Array(t, n) => {
                let inner: &IrType = &*t;
                IrType::Array(Box::new(inner.clone()), *n)
            },
        }
    }
}

/// How a type is written.
pub open spec fn type_text(ty: IrType) -> Seq<char>
    decreases ty,
{
    match ty {
        IrType::I32 => "i32"@,
        IrType::Void => "void"@,
        IrType::Ptr(t) => "*"@ + type_text(*t),
        IrType::Array(t, n) => "["@ + type_text(*t) + ", "@ + text::dec_nat(n as nat) + "]"@,
    }
}

impl IrType {
    /// The type as it is written.
    pub fn text(&self) -> (r: String)
        ensures
            r@ == type_text(*self),
        decreases self,
    {
        match self {
            IrType::I32 => "i32".to_owned(),
            IrType::Void => "void".to_owned(),
            IrType::Ptr(t) => {
                let inner: &IrType = &*t;
                cat2("*", inner.text().as_str())
            },
            IrType::Array(t, n) => {
                let inner: &IrType = &*t;
                cat5(
                    "[",
                    inner.text().as_str(),
                    ", ",
                    text::dec_u64(*n as u64).as_str(),
                    "]",
                )
            },
        }
    }

    /// Whether the type is `void`.
    pub fn is_void(&self) -> (r: bool)
        ensures
            r == (*self is Void),
    {
        matches!(self, IrType::Void)
    }
}

// ── Operands ─────────────────────────────────────────────────────────────────

/// A constant, an SSA value or a named variable.
///
/// `Local` and `Global` carry an index into `IrProgram::local_names` and
/// `IrProgram::global_names`.
#[derive(Debug, Clone, Copy, PartialEq, Eq, Hash, Structural)]
pub enum IrOperand {
    Int(i32),
    Local(usize),
    Global(usize),
    Undef,
}

/// The name at an index, or a marked index where the table has none.
pub open spec fn name_or_index(names: Seq<Seq<char>>, i: usize, mark: Seq<char>) -> Seq<char> {
    if i < names.len() {
        names[i as int]
    } else {
        mark + text::dec_nat(i as nat)
    }
}

/// How an operand is written with given name tables.
pub open spec fn operand_text(
    op: IrOperand,
    locals: Seq<Seq<char>>,
    globals: Seq<Seq<char>>,
) -> Seq<char> {
    match op {
        IrOperand::Int(n) => text::dec_int(n as int),
        IrOperand::Local(i) => name_or_index(locals, i, "%?"@),
        IrOperand::Global(i) => name_or_index(globals, i, "@?"@),
        IrOperand::Undef => "undef"@,
    }
}

fn named(names: &[String], i: usize, mark: &str) -> (r: String)
    ensures
        r@ == name_or_index(text::texts(names@), i, mark@),
{
    if i < names.len() {
        names[i].clone()
    } else {
        cat2(mark, dec_usize(i).as_str())
    }
}

impl IrOperand {
    /// The operand as it is written with given name tables.
    pub fn display(self, locals: &[String], globals: &[String]) -> (r: String)
        ensures
            r@ == operand_text(self, text::texts(locals@), text::texts(globals@)),
    {
        match self {
            IrOperand::Int(n) => dec_i32(n),
            IrOperand::Local(i) => named(locals, i, "%?"),
            IrOperand::Global(i) => named(globals, i, "@?"),
            IrOperand::Undef => "undef".to_owned(),
        }
    }
}

// ── Instructions ─────────────────────────────────────────────────────────────

#[derive(Debug, Clone, Copy, PartialEq, Eq, Hash, Structural)]
pub enum IrArithOp {
    Add,
    Sub,
    Mul,
    Div,
    Mod,
}

/// How an arithmetic operation is written.
pub open spec fn arith_text(op: IrArithOp) -> Seq<char> {
    match op {
        IrArithOp::Add => "add"@,
        IrArithOp::Sub => "sub"@,
        IrArithOp::Mul => "mul"@,
        IrArithOp::Div => "div"@,
        IrArithOp::Mod => "mod"@,
    }
}

impl IrArithOp {
    /// The operation as it is written.
    pub fn text(self) -> (r: String)
        ensures
            r@ == arith_text(self),
    {
        match self {
            IrArithOp::Add => "add".to_owned(),
            IrArithOp::Sub => "sub".to_owned(),
            IrArithOp::Mul => "mul".to_owned(),
            IrArithOp::Div => "div".to_owned(),
            IrArithOp::Mod => "mod".to_owned(),
        }
    }
}

#[derive(Debug, Clone, Copy, PartialEq, Eq, Hash, Structural)]
pub enum IrCmpOp {
    Eq,
    Ne,
    Lt,
    Gt,
    Le,
    Ge,
}

/// How a comparison is written.
pub open spec fn cmp_text(op: IrCmpOp) -> Seq<char> {
    match op {
        IrCmpOp::Eq => "eq"@,
        IrCmpOp::Ne => "ne"@,
        IrCmpOp::Lt => "lt"@,
        IrCmpOp::Gt => "gt"@,
        IrCmpOp::Le => "le"@,
        IrCmpOp::Ge => "ge"@,
    }
}

impl IrCmpOp {
    /// The comparison as it is written.
    pub fn text(self) -> (r: String)
        ensures
            r@ == cmp_text(self),
    {
        match self {
            IrCmpOp::Eq => "eq".to_owned(),
            IrCmpOp::Ne => "ne".to_owned(),
            IrCmpOp::Lt => "lt".to_owned(),
            IrCmpOp::Gt => "gt".to_owned(),
            IrCmpOp::Le => "le".to_owned(),
            IrCmpOp::Ge => "ge".to_owned(),
        }
    }
}

#[derive(Debug)]
pub enum IrInst {
    /// `dest = alloc ty`; the destination is an index of a global name.
    Alloc { dest: usize, ty: IrType },
    /// `dest = load src`
    Load { dest: usize, src: IrOperand },
    /// `store value, ptr`
    Store { value: IrOperand, ptr: IrOperand },
    /// `dest = op lhs, rhs`
    Arith { dest: usize, op: IrArithOp, lhs: IrOperand, rhs: IrOperand },
    /// `dest = op lhs, rhs`
    Icmp { dest: usize, op: IrCmpOp, lhs: IrOperand, rhs: IrOperand },
    /// `dest = getptr ptr, index`: `ptr` moved by `index` elements of `elem_size` bytes.
    GetPtr { dest: usize, ptr: IrOperand, index: IrOperand, elem_size: i32 },
    /// `dest = getelemptr ptr, index`: the address of an element of the array at `ptr`.
    GetElemPtr { dest: usize, ptr: IrOperand, index: IrOperand, elem_size: i32 },
    /// `dest = call @func(args)`; no destination for a function without a result.
    Call { dest: Option<usize>, func: usize, args: Vec<IrOperand> },
    /// `br cond, then_bb, else_bb` (terminator)
    Br { cond: IrOperand, then_bb: usize, else_bb: usize },
    /// `jump target` (terminator)
    Jump { target: usize },
    /// `ret` or `ret value` (terminator)
    Ret { value: Option<IrOperand> },
    /// `dest = phi [(value, block), ...]`
    Phi { dest: usize, incoming: Vec<(IrOperand, usize)> },
    /// Inline assembly; the destination gets what it leaves in `a0`.
    Asm { dest: Option<usize>, code: String },
}

/// The view of an [`IrInst`].
#[verifier::ext_equal]
pub enum InstV {
    Alloc { dest: usize, ty: IrType },
    Load { dest: usize, src: IrOperand },
    Store { value: IrOperand, ptr: IrOperand },
    Arith { dest: usize, op: IrArithOp, lhs: IrOperand, rhs: IrOperand },
    Icmp { dest: usize, op: IrCmpOp, lhs: IrOperand, rhs: IrOperand },
    GetPtr { dest: usize, ptr: IrOperand, index: IrOperand, elem_size: i32 },
    GetElemPtr { dest: usize, ptr: IrOperand, index: IrOperand, elem_size: i32 },
    Call { dest: Option<usize>, func: usize, args: Seq<IrOperand> },
    Br { cond: IrOperand, then_bb: usize, else_bb: usize },
    Jump { target: usize },
    Ret { value: Option<IrOperand> },
    Phi { dest: usize, incoming: Seq<(IrOperand, usize)> },
    Asm { dest: Option<usize>, code: Seq<char> },
}

impl View for IrInst {
    type V = InstV;

    open spec fn view(&self) -> InstV {
        match *self {
            IrInst::Alloc { dest, ty } => InstV::Alloc { dest, ty },
            IrInst::Load { dest, src } => InstV::Load { dest, src },
            IrInst::Store { value, ptr } => InstV::Store { value, ptr },
            IrInst::Arith { dest, op, lhs, rhs } => InstV::Arith { dest, op, lhs, rhs },
            IrInst::Icmp { dest, op, lhs, rhs } => InstV::Icmp { dest, op, lhs, rhs },
            IrInst::GetPtr { dest, ptr, index, elem_size } => InstV::GetPtr {
                dest,
                ptr,
                index,
                elem_size,
            },
            IrInst::GetElemPtr { dest, ptr, index, elem_size } => InstV::GetElemPtr {
                dest,
                ptr,
                index,
                elem_size,
            },
            IrInst::Call { dest, func, args } => InstV::Call { dest, func, args: args@ },
            IrInst::Br { cond, then_bb, else_bb } => InstV::Br { cond, then_bb, else_bb },
            IrInst::Jump { target } => InstV::Jump { target },
            IrInst::Ret { value } => InstV::Ret { value },
            IrInst::Phi { dest, incoming } => InstV::Phi { dest, incoming: incoming@ },
            IrInst::Asm { dest, code } => InstV::Asm { dest, code: code@ },
        }
    }
}

/// Whether an instruction ends a block.
pub open spec fn terminator(i: InstV) -> bool {
    i is Br || i is Jump || i is Ret
}

/// The index an instruction defines.
pub open spec fn inst_dest(i: InstV) -> Option<usize> {
    match i {
        InstV::Alloc { dest, .. } => Some(dest),
        InstV::Load { dest, .. } => Some(dest),
        InstV::Arith { dest, .. } => Some(dest),
        InstV::Icmp { dest, .. } => Some(dest),
        InstV::GetPtr { dest, .. } => Some(dest),
        InstV::GetElemPtr { dest, .. } => Some(dest),
        InstV::Phi { dest, .. } => Some(dest),
        InstV::Call { dest, .. } => dest,
        InstV::Asm { dest, .. } => dest,
        _ => None,
    }
}

/// An instruction with another destination, where it has one.
pub open spec fn with_dest(i: InstV, d: usize) -> InstV {
    match i {
        InstV::Alloc { ty, .. } => InstV::Alloc { dest: d, ty },
        InstV::Load { src, .. } => InstV::Load { dest: d, src },
        InstV::Arith { op, lhs, rhs, .. } => InstV::Arith { dest: d, op, lhs, rhs },
        InstV::Icmp { op, lhs, rhs, .. } => InstV::Icmp { dest: d, op, lhs, rhs },
        InstV::GetPtr { ptr, index, elem_size, .. } => InstV::GetPtr {
            dest: d,
            ptr,
            index,
            elem_size,
        },
        InstV::GetElemPtr { ptr, index, elem_size, .. } => InstV::GetElemPtr {
            dest: d,
            ptr,
            index,
            elem_size,
        },
        InstV::Phi { incoming, .. } => InstV::Phi { dest: d, incoming },
        InstV::Call { dest: Some(_), func, args } => InstV::Call { dest: Some(d), func, args },
        InstV::Asm { dest: Some(_), code } => InstV::Asm { dest: Some(d), code },
        _ => i,
    }
}

/// The operands of an instruction, in the order they are written.
pub open spec fn inst_operands(i: InstV) -> Seq<IrOperand> {
    match i {
        InstV::Load { src, .. } => seq![src],
        InstV::Store { value, ptr } => seq![value, ptr],
        InstV::Arith { lhs, rhs, .. } => seq![lhs, rhs],
        InstV::Icmp { lhs, rhs, .. } => seq![lhs, rhs],
        InstV::GetPtr { ptr, index, .. } => seq![ptr, index],
        InstV::GetElemPtr { ptr, index, .. } => seq![ptr, index],
        InstV::Call { args, .. } => args,
        InstV::Br { cond, .. } => seq![cond],
        InstV::Ret { value: Some(v) } => seq![v],
        InstV::Phi { incoming, .. } => incoming.map_values(|p: (IrOperand, usize)| p.0),
        _ => Seq::empty(),
    }
}

/// A copy of a list of operands.
pub fn copy_operands(v: &Vec<IrOperand>) -> (r: Vec<IrOperand>)
    ensures
        r@ == v@,
{
    let mut out: Vec<IrOperand> = Vec::new();
    let mut i: usize = 0;
    while i < v.len()
        invariant
            i <= v.len(),
            out@ == v@.take(i as int),
        decreases v.len() - i,
    {
        out.push(v[i]);
        i = i + 1;
        assert(v@.take(i as int) =~= v@.take(i - 1).push(v@[i - 1]));
    }
    assert(v@.take(i as int) =~= v@);
    out
}

/// A copy of the incoming values of a phi.
pub fn copy_incoming(v: &Vec<(IrOperand, usize)>) -> (r: Vec<(IrOperand, usize)>)
    ensures
        r@ == v@,
{
    let mut out: Vec<(IrOperand, usize)> = Vec::new();
    let mut i: usize = 0;
    while i < v.len()
        invariant
            i <= v.len(),
            out@ == v@.take(i as int),
        decreases v.len() - i,
    {
        out.push((v[i].0, v[i].1));
        i = i + 1;
        assert(v@.take(i as int) =~= v@.take(i - 1).push(v@[i - 1]));
    }
    assert(v@.take(i as int) =~= v@);
    out
}

/// References to a list of operands.
fn operand_refs(args: &Vec<IrOperand>) -> (r: Vec<&IrOperand>)
    ensures
        r@.map_values(|o: &IrOperand| *o) == args@,
{
    let mut out: Vec<&IrOperand> = Vec::new();
    let mut i: usize = 0;
    while i < args.len()
        invariant
            i <= args.len(),
            out@.map_values(|o: &IrOperand| *o) =~= args@.take(i as int),
        decreases args.len() - i,
    {
        out.push(&args[i]);
        i = i + 1;
        assert(args@.take(i as int) =~= args@.take(i - 1).push(args@[i - 1]));
    }
    assert(args@.take(i as int) =~= args@);
    out
}

/// References to the values of a phi.
fn incoming_refs(incoming: &Vec<(IrOperand, usize)>) -> (r: Vec<&IrOperand>)
    ensures
        r@.map_values(|o: &IrOperand| *o) == incoming@.map_values(|p: (IrOperand, usize)| p.0),
{
    let mut out: Vec<&IrOperand> = Vec::new();
    let ghost vals = incoming@.map_values(|p: (IrOperand, usize)| p.0);
    let mut i: usize = 0;
    while i < incoming.len()
        invariant
            i <= incoming.len(),
            vals == incoming@.map_values(|p: (IrOperand, usize)| p.0),
            out@.map_values(|o: &IrOperand| *o) =~= vals.take(i as int),
        decreases incoming.len() - i,
    {
        out.push(&incoming[i].0);
        i = i + 1;
        assert(vals.take(i as int) =~= vals.take(i - 1).push(vals[i - 1]));
    }
    assert(vals.take(i as int) =~= vals);
    out
}

impl Clone for IrInst {
    fn clone(&self) -> (r: Self)
        ensures
            r@ == self@,
    {
        match self {
            IrInst::Alloc { dest, ty } => IrInst::Alloc { dest: *dest, ty: ty.clone() },
            IrInst::Load { dest, src } => IrInst::Load { dest: *dest, src: *src },
            IrInst::Store { value, ptr } => IrInst::Store { value: *value, ptr: *ptr },
            IrInst::Arith { dest, op, lhs, rhs } => IrInst::Arith {
                dest: *dest,
                op: *op,
                lhs: *lhs,
                rhs: *rhs,
            },
            IrInst::Icmp { dest, op, lhs, rhs } => IrInst::Icmp {
                dest: *dest,
                op: *op,
                lhs: *lhs,
                rhs: *rhs,
            },
            IrInst::GetPtr { dest, ptr, index, elem_size } => IrInst::GetPtr {
                dest: *dest,
                ptr: *ptr,
                index: *index,
                elem_size: *elem_size,
            },
            IrInst::GetElemPtr { dest, ptr, index, elem_size } => IrInst::GetElemPtr {
                dest: *dest,
                ptr: *ptr,
                index: *index,
                elem_size: *elem_size,
            },
            IrInst::Call { dest, func, args } => IrInst::Call {
                dest: *dest,
                func: *func,
                args: copy_operands(args),
            },
            IrInst::Br { cond, then_bb, else_bb } => IrInst::Br {
                cond: *cond,
                then_bb: *then_bb,
                else_bb: *else_bb,
            },
            IrInst::Jump { target } => IrInst::Jump { target: *target },
            IrInst::Ret { value } => IrInst::Ret { value: *value },
            IrInst::Phi { dest, incoming } => IrInst::Phi {
                dest: *dest,
                incoming: copy_incoming(incoming),
            },
            IrInst::Asm { dest, code } => IrInst::Asm { dest: *dest, code: code.clone() },
        }
    }
}

impl IrInst {
    /// Whether the instruction ends a block.
    pub fn is_terminator(&self) -> (r: bool)
        ensures
            r == terminator(self@),
    {
        match self {
            IrInst::Br { .. } => true,
            IrInst::Jump { .. } => true,
            IrInst::Ret { .. } => true,
            _ => false,
        }
    }

    /// The index the instruction defines, if any.
    pub fn dest(&self) -> (r: Option<usize>)
        ensures
            r == inst_dest(self@),
    {
        match self {
            IrInst::Alloc { dest, .. } => Some(*dest),
            IrInst::Load { dest, .. } => Some(*dest),
            IrInst::Arith { dest, .. } => Some(*dest),
            IrInst::Icmp { dest, .. } => Some(*dest),
            IrInst::GetPtr { dest, .. } => Some(*dest),
            IrInst::GetElemPtr { dest, .. } => Some(*dest),
            IrInst::Phi { dest, .. } => Some(*dest),
            IrInst::Call { dest, .. } => *dest,
            IrInst::Asm { dest, .. } => *dest,
            _ => None,
        }
    }

    /// The place of the index the instruction defines, if any.
    pub fn dest_mut(&mut self) -> (r: Option<&mut usize>)
        ensures
            match r {
                Some(d) => inst_dest(old(self)@) == Some(*d) && final(self)@ == with_dest(
                    old(self)@,
                    *final(d),
                ),
                None => inst_dest(old(self)@) is None && *final(self) == *old(self),
            },
    {
        match self {
            IrInst::Alloc { dest, .. } => Some(dest),
            IrInst::Load { dest, .. } => Some(dest),
            IrInst::Arith { dest, .. } => Some(dest),
            IrInst::Icmp { dest, .. } => Some(dest),
            IrInst::GetPtr { dest, .. } => Some(dest),
            IrInst::GetElemPtr { dest, .. } => Some(dest),
            IrInst::Phi { dest, .. } => Some(dest),
            IrInst::Call { dest: Some(dest), .. } => Some(dest),
            IrInst::Asm { dest: Some(dest), .. } => Some(dest),
            _ => None,
        }
    }

    /// The operands of the instruction, in the order they are written.
    pub fn operands(&self) -> (r: Vec<&IrOperand>)
        ensures
            r@.map_values(|o: &IrOperand| *o) == inst_operands(self@),
    {
        let mut out: Vec<&IrOperand> = Vec::new();
        match self {
            IrInst::Load { src, .. } => {
                out.push(src);
            },
            IrInst::Store { value, ptr } => {
                out.push(value);
                out.push(ptr);
            },
            IrInst::Arith { lhs, rhs, .. } => {
                out.push(lhs);
                out.push(rhs);
            },
            IrInst::Icmp { lhs, rhs, .. } => {
                out.push(lhs);
                out.push(rhs);
            },
            IrInst::GetPtr { ptr, index, .. } => {
                out.push(ptr);
                out.push(index);
            },
            IrInst::GetElemPtr { ptr, index, .. } => {
                out.push(ptr);
                out.push(index);
            },
            IrInst::Call { args, .. } => {
                return operand_refs(args);
            },
            IrInst::Br { cond, .. } => {
                out.push(cond);
            },
            IrInst::Ret { value: Some(v) } => {
                out.push(v);
            },
            IrInst::Phi { incoming, .. } => {
                return incoming_refs(incoming);
            },
            _ => {},
        }
        assert(out@.map_values(|o: &IrOperand| *o) =~= inst_operands(self@));
        out
    }
}

// ── Blocks ───────────────────────────────────────────────────────────────────

#[derive(Debug)]
pub struct IrBlock {
    /// Index into `IrProgram::block_names`.
    pub label: usize,
    /// Instructions; the last ends the block.
    pub instrs: Vec<IrInst>,
    /// Labels of the blocks that lead here, as the control flow graph finds them.
    pub preds: Vec<usize>,
}

/// The view of an [`IrBlock`].
#[verifier::ext_equal]
pub struct BlockV {
    pub label: usize,
    pub instrs: Seq<InstV>,
    pub preds: Seq<usize>,
}

/// The views of a list of instructions.
pub open spec fn insts(v: Seq<IrInst>) -> Seq<InstV> {
    v.map_values(|i: IrInst| i@)
}

pub broadcast proof fn insts_push(v: Seq<IrInst>, i: IrInst)
    ensures
        #[trigger] insts(v.push(i)) == insts(v).push(i@),
{
    assert(insts(v.push(i)) =~= insts(v).push(i@));
}

impl View for IrBlock {
    type V = BlockV;

    open spec fn view(&self) -> BlockV {
        BlockV { label: self.label, instrs: insts(self.instrs@), preds: self.preds@ }
    }
}

/// A copy of a list of instructions.
pub fn copy_insts(v: &Vec<IrInst>) -> (r: Vec<IrInst>)
    ensures
        insts(r@) == insts(v@),
{
    let mut out: Vec<IrInst> = Vec::new();
    let mut i: usize = 0;
    while i < v.len()
        invariant
            i <= v.len(),
            insts(out@) =~= insts(v@).take(i as int),
        decreases v.len() - i,
    {
        broadcast use insts_push;

        out.push(v[i].clone());
        i = i + 1;
        assert(insts(v@).take(i as int) =~= insts(v@).take(i - 1).push(v@[i - 1]@));
    }
    assert(insts(v@).take(i as int) =~= insts(v@));
    out
}

/// A copy of a list of indices.
pub fn copy_indices(v: &Vec<usize>) -> (r: Vec<usize>)
    ensures
        r@ == v@,
{
    let mut out: Vec<usize> = Vec::new();
    let mut i: usize = 0;
    while i < v.len()
        invariant
            i <= v.len(),
            out@ == v@.take(i as int),
        decreases v.len() - i,
    {
        out.push(v[i]);
        i = i + 1;
        assert(v@.take(i as int) =~= v@.take(i - 1).push(v@[i - 1]));
    }
    assert(v@.take(i as int) =~= v@);
    out
}

impl Clone for IrBlock {
    fn clone(&self) -> (r: Self)
        ensures
            r@ == self@,
    {
        IrBlock {
            label: self.label,
            instrs: copy_insts(&self.instrs),
            preds: copy_indices(&self.preds),
        }
    }
}

// ── Functions ────────────────────────────────────────────────────────────────

#[derive(Debug)]
pub struct IrFunc {
    /// Index into `IrProgram::func_names`.
    pub name: usize,
    /// Names and types of the parameters.
    pub params: Vec<(usize, IrType)>,
    pub ret_type: IrType,
    /// Variables of the entry block that are not among its instructions.
    pub allocas: Vec<(usize, IrType)>,
    /// Basic blocks; the first is the entry block.
    pub blocks: Vec<IrBlock>,
}

/// The view of an [`IrFunc`].
#[verifier::ext_equal]
pub struct FuncV {
    pub name: usize,
    pub params: Seq<(usize, IrType)>,
    pub ret_type: IrType,
    pub allocas: Seq<(usize, IrType)>,
    pub blocks: Seq<BlockV>,
}

/// The views of a list of blocks.
pub open spec fn blocks_view(v: Seq<IrBlock>) -> Seq<BlockV> {
    v.map_values(|b: IrBlock| b@)
}

pub broadcast proof fn blocks_push(v: Seq<IrBlock>, b: IrBlock)
    ensures
        #[trigger] blocks_view(v.push(b)) == blocks_view(v).push(b@),
{
    assert(blocks_view(v.push(b)) =~= blocks_view(v).push(b@));
}

impl View for IrFunc {
    type V = FuncV;

    open spec fn view(&self) -> FuncV {
        FuncV {
            name: self.name,
            params: self.params@,
            ret_type: self.ret_type,
            allocas: self.allocas@,
            blocks: blocks_view(self.blocks@),
        }
    }
}

/// A copy of a list of blocks.
pub fn copy_blocks(v: &Vec<IrBlock>) -> (r: Vec<IrBlock>)
    ensures
        blocks_view(r@) == blocks_view(v@),
{
    let mut out: Vec<IrBlock> = Vec::new();
    let mut i: usize = 0;
    while i < v.len()
        invariant
            i <= v.len(),
            blocks_view(out@) =~= blocks_view(v@).take(i as int),
        decreases v.len() - i,
    {
        broadcast use blocks_push;

        out.push(v[i].clone());
        i = i + 1;
        assert(blocks_view(v@).take(i as int) =~= blocks_view(v@).take(i - 1).push(v@[i - 1]@));
    }
    assert(blocks_view(v@).take(i as int) =~= blocks_view(v@));
    out
}

/// A copy of a list of named types.
pub fn copy_named_types(v: &Vec<(usize, IrType)>) -> (r: Vec<(usize, IrType)>)
    ensures
        r@ == v@,
{
    let mut out: Vec<(usize, IrType)> = Vec::new();
    let mut i: usize = 0;
    while i < v.len()
        invariant
            i <= v.len(),
            out@ == v@.take(i as int),
        decreases v.len() - i,
    {
        out.push((v[i].0, v[i].1.clone()));
        i = i + 1;
        assert(v@.take(i as int) =~= v@.take(i - 1).push(v@[i - 1]));
    }
    assert(v@.take(i as int) =~= v@);
    out
}

impl Clone for IrFunc {
    fn clone(&self) -> (r: Self)
        ensures
            r@ == self@,
    {
        IrFunc {
            name: self.name,
            params: copy_named_types(&self.params),
            ret_type: self.ret_type.clone(),
            allocas: copy_named_types(&self.allocas),
            blocks: copy_blocks(&self.blocks),
        }
    }
}

// ── Declarations ─────────────────────────────────────────────────────────────

#[derive(Debug, Clone)]
pub struct IrFuncDecl {
    pub name: usize,
    pub param_types: Vec<IrType>,
    pub ret_type: IrType,
}

/// The view of an [`IrFuncDecl`].
#[verifier::ext_equal]
pub struct FuncDeclIrV {
    pub name: usize,
    pub param_types: Seq<IrType>,
    pub ret_type: IrType,
}

impl View for IrFuncDecl {
    type V = FuncDeclIrV;

    open spec fn view(&self) -> FuncDeclIrV {
        FuncDeclIrV {
            name: self.name,
            param_types: self.param_types@,
            ret_type: self.ret_type,
        }
    }
}

// ── Globals ──────────────────────────────────────────────────────────────────

#[derive(Debug, Clone)]
pub enum IrGlobalInit {
    Zero,
    Values(Vec<i32>),
}

/// The view of an [`IrGlobalInit`].
#[verifier::ext_equal]
pub enum InitV {
    Zero,
    Values(Seq<i32>),
}

impl View for IrGlobalInit {
    type V = InitV;

    open spec fn view(&self) -> InitV {
        match *self {
            IrGlobalInit::Zero => InitV::Zero,
            IrGlobalInit::Values(v) => InitV::Values(v@),
        }
    }
}

#[derive(Debug, Clone)]
pub struct IrGlobal {
    pub name: usize,
    pub ty: IrType,
    pub init: IrGlobalInit,
}

/// The view of an [`IrGlobal`].
#[verifier::ext_equal]
pub struct GlobalV {
    pub name: usize,
    pub ty: IrType,
    pub init: InitV,
}

impl View for IrGlobal {
    type V = GlobalV;

    open spec fn view(&self) -> GlobalV {
        GlobalV { name: self.name, ty: self.ty, init: self.init@ }
    }
}

// ── Program ──────────────────────────────────────────────────────────────────

#[derive(Debug, Clone)]
pub struct IrProgram {
    /// `%0`, `%1`, ...: SSA values.
    pub local_names: Vec<String>,
    /// `@arr`, `@size`, ...: variables.
    pub global_names: Vec<String>,
    /// `%entry`, `%label_0`, ...: basic blocks.
    pub block_names: Vec<String>,
    /// Functions.
    pub func_names: Vec<String>,
    pub globals: Vec<IrGlobal>,
    pub func_decls: Vec<IrFuncDecl>,
    pub funcs: Vec<IrFunc>,
}

/// The view of an [`IrProgram`].
#[verifier::ext_equal]
pub struct ProgV {
    pub local_names: Seq<Seq<char>>,
    pub global_names: Seq<Seq<char>>,
    pub block_names: Seq<Seq<char>>,
    pub func_names: Seq<Seq<char>>,
    pub globals: Seq<GlobalV>,
    pub func_decls: Seq<FuncDeclIrV>,
    pub funcs: Seq<FuncV>,
}

/// The views of a list of functions.
pub open spec fn funcs_view(v: Seq<IrFunc>) -> Seq<FuncV> {
    v.map_values(|f: IrFunc| f@)
}

pub broadcast proof fn funcs_push(v: Seq<IrFunc>, f: IrFunc)
    ensures
        #[trigger] funcs_view(v.push(f)) == funcs_view(v).push(f@),
{
    assert(funcs_view(v.push(f)) =~= funcs_view(v).push(f@));
}

/// The views of a list of global variables.
pub open spec fn globals_view(v: Seq<IrGlobal>) -> Seq<GlobalV> {
    v.map_values(|g: IrGlobal| g@)
}

pub broadcast proof fn globals_push(v: Seq<IrGlobal>, g: IrGlobal)
    ensures
        #[trigger] globals_view(v.push(g)) == globals_view(v).push(g@),
{
    assert(globals_view(v.push(g)) =~= globals_view(v).push(g@));
}

/// The views of a list of function declarations.
pub open spec fn decls_view(v: Seq<IrFuncDecl>) -> Seq<FuncDeclIrV> {
    v.map_values(|d: IrFuncDecl| d@)
}

pub broadcast proof fn decls_push(v: Seq<IrFuncDecl>, d: IrFuncDecl)
    ensures
        #[trigger] decls_view(v.push(d)) == decls_view(v).push(d@),
{
    assert(decls_view(v.push(d)) =~= decls_view(v).push(d@));
}

impl View for IrProgram {
    type V = ProgV;

    open spec fn view(&self) -> ProgV {
        ProgV {
            local_names: text::texts(self.local_names@),
            global_names: text::texts(self.global_names@),
            block_names: text::texts(self.block_names@),
            func_names: text::texts(self.func_names@),
            globals: globals_view(self.globals@),
            func_decls: decls_view(self.func_decls@),
            funcs: funcs_view(self.funcs@),
        }
    }
}

/// A program without any item.
pub open spec fn empty_program() -> ProgV {
    ProgV {
        local_names: Seq::empty(),
        global_names: Seq::empty(),
        block_names: Seq::empty(),
        func_names: Seq::empty(),
        globals: Seq::empty(),
        func_decls: Seq::empty(),
        funcs: Seq::empty(),
    }
}

/// A name with the `@` that marks variables.
pub open spec fn global_mark(name: Seq<char>) -> Seq<char> {
    if text::starts_with(name, '@') {
        name
    } else {
        "@"@ + name
    }
}

/// A name with the `@` that marks variables.
pub fn mark_global(name: String) -> (r: String)
    ensures
        r@ == global_mark(name@),
{
    let marked = name.as_str().unicode_len() > 0 && name.as_str().get_char(0) == '@';
    if marked {
        name
    } else {
        cat2("@", name.as_str())
    }
}

/// The table after a variable name has been looked up or added.
pub open spec fn global_interned(names: Seq<Seq<char>>, name: Seq<char>) -> Seq<Seq<char>> {
    if text::position(names, global_mark(name)) is Some {
        names
    } else {
        names.push(global_mark(name))
    }
}

/// The position of the first function with a name.
pub open spec fn func_position(funcs: Seq<FuncV>, name: usize) -> Option<int>
    decreases funcs.len(),
{
    if funcs.len() == 0 {
        None
    } else {
        match func_position(funcs.drop_last(), name) {
            Some(i) => Some(i),
            None => if funcs.last().name == name {
                Some(funcs.len() - 1)
            } else {
                None
            },
        }
    }
}

/// The position found is that of the first function with the name; there is none where nothing
/// is found.
pub proof fn func_position_is_first(funcs: Seq<FuncV>, name: usize)
    ensures
        match func_position(funcs, name) {
            Some(i) => 0 <= i < funcs.len() && funcs[i].name == name && forall|j: int|
                0 <= j < i ==> (#[trigger] funcs[j]).name != name,
            None => forall|j: int| 0 <= j < funcs.len() ==> (#[trigger] funcs[j]).name != name,
        },
    decreases funcs.len(),
{
    if funcs.len() > 0 {
        func_position_is_first(funcs.drop_last(), name);
        assert forall|j: int| 0 <= j < funcs.len() - 1 implies #[trigger] funcs[j]
            == funcs.drop_last()[j] by {}
    }
}

fn find_func_index(funcs: &Vec<IrFunc>, name: usize) -> (r: Option<usize>)
    ensures
        match func_position(funcs_view(funcs@), name) {
            Some(i) => r == Some(i as usize) && 0 <= i < funcs@.len() && i <= usize::MAX,
            None => r is None,
        },
{
    let mut i: usize = 0;
    let ghost views = funcs_view(funcs@);
    assert(views.take(0) =~= Seq::empty());
    while i < funcs.len()
        invariant
            i <= funcs.len(),
            views == funcs_view(funcs@),
            func_position(views.take(i as int), name) is None,
        decreases funcs.len() - i,
    {
        assert(views.take(i + 1).drop_last() =~= views.take(i as int));
        if funcs[i].name == name {
            proof {
                func_position_is_first(views, name);
                func_position_is_first(views.take(i + 1), name);
                assert(views.take(i + 1)[i as int] == views[i as int]);
                assert forall|j: int| 0 <= j < i implies #[trigger] views[j] == views.take(
                    i + 1,
                )[j] by {}
            }
            return Some(i);
        }
        i = i + 1;
    }
    assert(views.take(i as int) =~= views);
    None
}

impl IrProgram {
    pub fn new() -> (r: Self)
        ensures
            r@ == empty_program(),
    {
        let r = IrProgram {
            local_names: Vec::new(),
            global_names: Vec::new(),
            block_names: Vec::new(),
            func_names: Vec::new(),
            globals: Vec::new(),
            func_decls: Vec::new(),
            funcs: Vec::new(),
        };
        assert(r@ =~= empty_program());
        r
    }

    // ── Name tables ──────────────────────────────────────────────────────────

    /// Adds the name of an SSA value.
    pub fn intern_local(&mut self, name: String) -> (r: usize)
        ensures
            r == old(self)@.local_names.len(),
            final(self)@ == (ProgV {
                local_names: old(self)@.local_names.push(name@),
                ..old(self)@
            }),
    {
        let idx = self.local_names.len();
        self.local_names.push(name);
        idx
    }

    /// The index of a variable name, which is marked with `@` and added where it is new.
    pub fn intern_global(&mut self, name: String) -> (r: usize)
        ensures
            final(self)@ == (ProgV {
                global_names: global_interned(old(self)@.global_names, name@),
                ..old(self)@
            }),
            text::position(final(self)@.global_names, global_mark(name@)) == Some(r),
    {
        let name = mark_global(name);
        if let Some(pos) = find_string(&self.global_names, name.as_str()) {
            return pos;
        }
        let idx = self.global_names.len();
        proof {
            assert(self@.global_names.push(name@).drop_last() =~= self@.global_names);
        }
        self.global_names.push(name);
        idx
    }

    /// Adds the name of a block.
    pub fn intern_block(&mut self, name: String) -> (r: usize)
        ensures
            r == old(self)@.block_names.len(),
            final(self)@ == (ProgV {
                block_names: old(self)@.block_names.push(name@),
                ..old(self)@
            }),
    {
        let idx = self.block_names.len();
        self.block_names.push(name);
        idx
    }

    /// Adds the name of a function.
    pub fn intern_func(&mut self, name: String) -> (r: usize)
        ensures
            r == old(self)@.func_names.len(),
            final(self)@ == (ProgV {
                func_names: old(self)@.func_names.push(name@),
                ..old(self)@
            }),
    {
        let idx = self.func_names.len();
        self.func_names.push(name);
        idx
    }

    // ── Queries ──────────────────────────────────────────────────────────────

    pub fn local_name(&self, idx: usize) -> (r: &str)
        requires
            idx < self@.local_names.len(),
        ensures
            r@ == self@.local_names[idx as int],
    {
        self.local_names[idx].as_str()
    }

    pub fn global_name(&self, idx: usize) -> (r: &str)
        requires
            idx < self@.global_names.len(),
        ensures
            r@ == self@.global_names[idx as int],
    {
        self.global_names[idx].as_str()
    }

    pub fn block_name(&self, idx: usize) -> (r: &str)
        requires
            idx < self@.block_names.len(),
        ensures
            r@ == self@.block_names[idx as int],
    {
        self.block_names[idx].as_str()
    }

    pub fn func_name(&self, idx: usize) -> (r: &str)
        requires
            idx < self@.func_names.len(),
        ensures
            r@ == self@.func_names[idx as int],
    {
        self.func_names[idx].as_str()
    }

    /// The first function with a name.
    pub fn find_func(&self, name_idx: usize) -> (r: Option<&IrFunc>)
        ensures
            match func_position(self@.funcs, name_idx) {
                Some(i) => r matches Some(f) && f@ == self@.funcs[i],
                None => r is None,
            },
    {
        match find_func_index(&self.funcs, name_idx) {
            Some(i) => Some(&self.funcs[i]),
            None => None,
        }
    }

    /// The first function with a name, to be changed in place.
    pub fn find_func_mut(&mut self, name_idx: usize) -> (r: Option<&mut IrFunc>)
        ensures
            match func_position(old(self)@.funcs, name_idx) {
                Some(i) => r matches Some(f) && f@ == old(self)@.funcs[i] && final(self)@ == (
                ProgV { funcs: old(self)@.funcs.update(i, final(f)@), ..old(self)@ }),
                None => r is None && *final(self) == *old(self),
            },
    {
        match find_func_index(&self.funcs, name_idx) {
            Some(i) => {
                let r = &mut self.funcs[i];
                Some(r)
            },
            None => None,
        }
    }

    /// The index of a variable name.
    pub fn global_by_name(&self, name: &str) -> (r: Option<usize>)
        ensures
            r == text::position(self@.global_names, name@),
    {
        find_string(&self.global_names, name)
    }

    /// The index of a function name.
    pub fn func_by_name(&self, name: &str) -> (r: Option<usize>)
        ensures
            r == text::position(self@.func_names, name@),
    {
        find_string(&self.func_names, name)
    }
}

impl Default for IrProgram {
    fn default() -> (r: Self)
        ensures
            r@ == empty_program(),
    {
        IrProgram::new()
    }
}

/// Interning a variable name twice gives the same index and adds it once; the name is found at
/// that index.
pub proof fn interning_is_idempotent(names: Seq<Seq<char>>, name: Seq<char>)
    requires
        names.len() < usize::MAX,
    ensures
        global_interned(global_interned(names, name), name) == global_interned(names, name),
        text::position(global_interned(names, name), global_mark(name)) matches Some(i) && i
            < global_interned(names, name).len() && global_interned(names, name)[i as int]
            == global_mark(name),
{
    let after = global_interned(names, name);
    text::position_is_first(after, global_mark(name));
    if text::position(names, global_mark(name)) is None {
        assert(after[names.len() as int] == global_mark(name));
    }
}

/// Interning one variable name leaves the index of every name that was there before.
pub proof fn interning_keeps_indices(names: Seq<Seq<char>>, name: Seq<char>, other: Seq<char>)
    requires
        names.len() < usize::MAX,
        text::position(names, other) is Some,
    ensures
        text::position(global_interned(names, name), other) == text::position(names, other),
{
    if text::position(names, global_mark(name)) is None {
        assert(names.push(global_mark(name)).drop_last() =~= names);
    }
}

} // verus!

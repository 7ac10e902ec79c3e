//! Builds the IR of one function.
//!
//! The builder collects blocks and instructions and ends in an [`IrFunc`]. It has name tables of
//! its own, which continue those of the program: the indices it hands out are those that the
//! names have once the tables are merged.

use crate::ir::{
    self, mark_global, BlockV, FuncV, InstV, IrArithOp, IrBlock, IrCmpOp, IrFunc, IrInst,
    IrOperand, IrType,
};
use crate::text::{self, cat2, dec_u64, dec_usize, find_string};
use vstd::prelude::*;

verus! {

broadcast use {
    crate::text::texts_push,
    crate::ir::insts_push,
    crate::ir::blocks_push,
};

/// The name tables of a finished builder.
#[derive(Debug)]
pub struct BuilderMeta {
    pub local_names: Vec<String>,
    pub global_names: Vec<String>,
    pub block_names: Vec<String>,
    pub func_names: Vec<String>,
}

/// The view of a [`BuilderMeta`].
#[verifier::ext_equal]
pub struct MetaV {
    pub local_names: Seq<Seq<char>>,
    pub global_names: Seq<Seq<char>>,
    pub block_names: Seq<Seq<char>>,
    pub func_names: Seq<Seq<char>>,
}

impl View for BuilderMeta {
    type V = MetaV;

    open spec fn view(&self) -> MetaV {
        MetaV {
            local_names: text::texts(self.local_names@),
            global_names: text::texts(self.global_names@),
            block_names: text::texts(self.block_names@),
            func_names: text::texts(self.func_names@),
        }
    }
}

/// The state of building one [`IrFunc`].
pub struct IrBuilder {
    local_names: Vec<String>,
    global_names: Vec<String>,
    block_names: Vec<String>,
    func_names: Vec<String>,
    func_name: usize,
    params: Vec<(usize, IrType)>,
    ret_type: IrType,
    blocks: Vec<IrBlock>,
    cur_block: usize,
    pub(crate) pending_allocas: Vec<(usize, IrType)>,
    local_counter: usize,
    global_counter: usize,
    block_counter: usize,
    func_counter: usize,
    tmp_counter: u32,
    sc_counter: u32,
    block_terminated: bool,
}

/// The view of an [`IrBuilder`].
#[verifier::ext_equal]
pub struct BuilderV {
    pub names: MetaV,
    pub func_name: usize,
    pub params: Seq<(usize, IrType)>,
    pub ret_type: IrType,
    pub blocks: Seq<BlockV>,
    /// The label of the block that instructions go to.
    pub cur_block: usize,
    /// Variables to be allocated at the start of the entry block.
    pub pending: Seq<(usize, IrType)>,
    /// The indices that the next names get.
    pub local_counter: usize,
    pub global_counter: usize,
    pub block_counter: usize,
    pub func_counter: usize,
    /// The numbers that the next temporary and short-circuit variable are named by.
    pub tmp_counter: u32,
    pub sc_counter: u32,
    /// Whether the current block has its terminator.
    pub terminated: bool,
}

impl View for IrBuilder {
    type V = BuilderV;

    closed spec fn view(&self) -> BuilderV {
        BuilderV {
            names: MetaV {
                local_names: text::texts(self.local_names@),
                global_names: text::texts(self.global_names@),
                block_names: text::texts(self.block_names@),
                func_names: text::texts(self.func_names@),
            },
            func_name: self.func_name,
            params: self.params@,
            ret_type: self.ret_type,
            blocks: ir::blocks_view(self.blocks@),
            cur_block: self.cur_block,
            pending: self.pending_allocas@,
            local_counter: self.local_counter,
            global_counter: self.global_counter,
            block_counter: self.block_counter,
            func_counter: self.func_counter,
            tmp_counter: self.tmp_counter,
            sc_counter: self.sc_counter,
            terminated: self.block_terminated,
        }
    }
}

/// The position of the first block with a label.
pub open spec fn block_position(blocks: Seq<BlockV>, label: usize) -> Option<int>
    decreases blocks.len(),
{
    if blocks.len() == 0 {
        None
    } else {
        match block_position(blocks.drop_last(), label) {
            Some(i) => Some(i),
            None => if blocks.last().label == label {
                Some(blocks.len() - 1)
            } else {
                None
            },
        }
    }
}

/// The position found is that of the first block with the label; there is none where nothing is
/// found.
pub proof fn block_position_is_first(blocks: Seq<BlockV>, label: usize)
    ensures
        match block_position(blocks, label) {
            Some(i) => 0 <= i < blocks.len() && blocks[i].label == label && forall|j: int|
                0 <= j < i ==> (#[trigger] blocks[j]).label != label,
            None => forall|j: int| 0 <= j < blocks.len() ==> (#[trigger] blocks[j]).label != label,
        },
    decreases blocks.len(),
{
    if blocks.len() > 0 {
        block_position_is_first(blocks.drop_last(), label);
        assert forall|j: int| 0 <= j < blocks.len() - 1 implies #[trigger] blocks[j]
            == blocks.drop_last()[j] by {}
    }
}

/// A block with one instruction more.
pub open spec fn block_push(b: BlockV, i: InstV) -> BlockV {
    BlockV { instrs: b.instrs.push(i), ..b }
}

impl BuilderV {
    /// The builder has an entry block and a current block, and the tables agree with the counters.
    pub open spec fn wf(self) -> bool {
        &&& self.blocks.len() > 0
        &&& block_position(self.blocks, self.cur_block) is Some
        &&& self.names.global_names.len() <= self.global_counter
    }

    /// The builder after an instruction has gone to the current block.
    pub open spec fn push(self, i: InstV) -> BuilderV {
        BuilderV {
            blocks: match block_position(self.blocks, self.cur_block) {
                Some(k) => self.blocks.update(k, block_push(self.blocks[k], i)),
                None => self.blocks,
            },
            terminated: self.terminated || ir::terminator(i),
            ..self
        }
    }

    /// Whether there is room for another temporary.
    pub open spec fn tmp_left(self) -> bool {
        self.local_counter < usize::MAX && self.tmp_counter < u32::MAX
    }

    /// The builder after a temporary has been named; its index is the old `local_counter`.
    pub open spec fn with_tmp(self) -> BuilderV {
        BuilderV {
            names: MetaV {
                local_names: self.names.local_names.push(
                    "%"@ + text::dec_nat(self.tmp_counter as nat),
                ),
                ..self.names
            },
            local_counter: (self.local_counter + 1) as usize,
            tmp_counter: (self.tmp_counter + 1) as u32,
            ..self
        }
    }

    /// The builder after a label has been named; its index is the old `block_counter`.
    pub open spec fn with_label(self) -> BuilderV {
        BuilderV {
            names: MetaV {
                block_names: self.names.block_names.push(
                    "%label_"@ + text::dec_nat(self.block_counter as nat),
                ),
                ..self.names
            },
            block_counter: (self.block_counter + 1) as usize,
            ..self
        }
    }

    /// Whether there is room for another short-circuit variable.
    pub open spec fn sc_left(self) -> bool {
        self.global_counter < usize::MAX && self.sc_counter < u32::MAX
    }

    /// The builder after a short-circuit variable has been named; its index is the old
    /// `global_counter`.
    pub open spec fn with_sc(self) -> BuilderV {
        BuilderV {
            names: MetaV {
                global_names: self.names.global_names.push(
                    "@sc_"@ + text::dec_nat(self.sc_counter as nat),
                ),
                ..self.names
            },
            global_counter: (self.global_counter + 1) as usize,
            sc_counter: (self.sc_counter + 1) as u32,
            ..self
        }
    }

    /// Where a variable name stands in the builder's own table.
    pub open spec fn own_global(self, name: Seq<char>) -> Option<usize> {
        text::position(self.names.global_names, ir::global_mark(name))
    }

    /// The index of a variable name.
    pub open spec fn global_index(self, name: Seq<char>) -> usize {
        match self.own_global(name) {
            Some(pos) => (self.global_counter - self.names.global_names.len() + pos) as usize,
            None => self.global_counter,
        }
    }

    /// The builder after a variable name has been looked up or added.
    pub open spec fn with_global(self, name: Seq<char>) -> BuilderV {
        if self.own_global(name) is Some {
            self
        } else {
            BuilderV {
                names: MetaV {
                    global_names: self.names.global_names.push(ir::global_mark(name)),
                    ..self.names
                },
                global_counter: (self.global_counter + 1) as usize,
                ..self
            }
        }
    }

    /// The builder after a block has been started.
    pub open spec fn start(self, label: usize) -> BuilderV {
        BuilderV {
            blocks: self.blocks.push(
                BlockV { label, instrs: Seq::empty(), preds: Seq::empty() },
            ),
            cur_block: label,
            terminated: false,
            ..self
        }
    }

    /// The builder after a variable has been put down for the entry block.
    pub open spec fn with_pending(self, name: usize, ty: IrType) -> BuilderV {
        BuilderV { pending: self.pending.push((name, ty)), ..self }
    }

    /// The function that has been built.
    pub open spec fn built(self) -> FuncV {
        FuncV {
            name: self.func_name,
            params: self.params,
            ret_type: self.ret_type,
            allocas: Seq::empty(),
            blocks: self.blocks.update(
                0,
                BlockV {
                    instrs: allocs(self.pending) + self.blocks[0].instrs,
                    ..self.blocks[0]
                },
            ),
        }
    }
}

/// The instructions that allocate variables.
pub open spec fn allocs(vars: Seq<(usize, IrType)>) -> Seq<InstV> {
    vars.map_values(|p: (usize, IrType)| InstV::Alloc { dest: p.0, ty: p.1 })
}

/// A new builder.
pub open spec fn new_builder(
    name: usize,
    params: Seq<(usize, IrType)>,
    ret_type: IrType,
    base_local: usize,
    base_global: usize,
    base_block: usize,
    base_func: usize,
) -> BuilderV {
    BuilderV {
        names: MetaV {
            local_names: Seq::empty(),
            global_names: Seq::empty(),
            block_names: seq!["%entry"@],
            func_names: Seq::empty(),
        },
        func_name: name,
        params,
        ret_type,
        blocks: seq![BlockV { label: base_block, instrs: Seq::empty(), preds: Seq::empty() }],
        cur_block: base_block,
        pending: Seq::empty(),
        local_counter: base_local,
        global_counter: base_global,
        block_counter: (base_block + 1) as usize,
        func_counter: base_func,
        tmp_counter: 0,
        sc_counter: 0,
        terminated: false,
    }
}

/// An update of a block that keeps its label leaves where labels are found.
pub proof fn position_after_update(blocks: Seq<BlockV>, k: int, b: BlockV, label: usize)
    requires
        0 <= k < blocks.len(),
        b.label == blocks[k].label,
    ensures
        block_position(blocks.update(k, b), label) == block_position(blocks, label),
    decreases blocks.len(),
{
    if k == blocks.len() - 1 {
        assert(blocks.update(k, b).drop_last() =~= blocks.drop_last());
    } else {
        assert(blocks.update(k, b).drop_last() =~= blocks.drop_last().update(k, b));
        position_after_update(blocks.drop_last(), k, b, label);
    }
}

/// An instruction pushed to a well-formed builder leaves it well-formed.
pub proof fn push_keeps_wf(b: BuilderV, i: InstV)
    requires
        b.wf(),
    ensures
        b.push(i).wf(),
{
    block_position_is_first(b.blocks, b.cur_block);
    let k = block_position(b.blocks, b.cur_block)->0;
    position_after_update(b.blocks, k, block_push(b.blocks[k], i), b.cur_block);
}

/// A started block is found where no earlier block has its label.
pub proof fn start_keeps_wf(b: BuilderV, label: usize)
    requires
        b.wf(),
    ensures
        b.start(label).wf(),
{
    assert(b.start(label).blocks.drop_last() =~= b.blocks);
}

impl IrBuilder {
    /// Creates a new builder. The base indices are the lengths of the program's name tables.
    pub fn new(
        name: usize,
        params: Vec<(usize, IrType)>,
        ret_type: IrType,
        base_local: usize,
        base_global: usize,
        base_block: usize,
        base_func: usize,
    ) -> (r: Self)
        requires
            base_block < usize::MAX,
        ensures
            r@ == new_builder(
                name,
                params@,
                ret_type,
                base_local,
                base_global,
                base_block,
                base_func,
            ),
            r@.wf(),
    {
        let mut block_names: Vec<String> = Vec::new();
        block_names.push("%entry".to_owned());
        let mut blocks: Vec<IrBlock> = Vec::new();
        blocks.push(IrBlock { label: base_block, instrs: Vec::new(), preds: Vec::new() });
        let r = IrBuilder {
            local_names: Vec::new(),
            global_names: Vec::new(),
            block_names,
            func_names: Vec::new(),
            func_name: name,
            params,
            ret_type,
            blocks,
            cur_block: base_block,
            pending_allocas: Vec::new(),
            local_counter: base_local,
            global_counter: base_global,
            block_counter: base_block + 1,
            func_counter: base_func,
            tmp_counter: 0,
            sc_counter: 0,
            block_terminated: false,
        };
        proof {
            assert(r@.blocks[0].instrs =~= Seq::empty());
            assert(r@ =~= new_builder(
                name,
                params@,
                ret_type,
                base_local,
                base_global,
                base_block,
                base_func,
            ));
            assert(r@.blocks.drop_last() =~= Seq::empty());
        }
        r
    }

    // ── Names ────────────────────────────────────────────────────────────────

    /// Names a temporary.
    pub fn alloc_tmp(&mut self) -> (r: usize)
        requires
            old(self)@.tmp_left(),
        ensures
            r == old(self)@.local_counter,
            final(self)@ == old(self)@.with_tmp(),
    {
        let idx = self.local_counter;
        self.local_counter = self.local_counter + 1;
        self.local_names.push(cat2("%", dec_u64(self.tmp_counter as u64).as_str()));
        self.tmp_counter = self.tmp_counter + 1;
        idx
    }

    /// Names a label.
    pub fn alloc_label(&mut self) -> (r: usize)
        requires
            old(self)@.block_counter < usize::MAX,
        ensures
            r == old(self)@.block_counter,
            final(self)@ == old(self)@.with_label(),
    {
        let idx = self.block_counter;
        self.block_counter = self.block_counter + 1;
        self.block_names.push(cat2("%label_", dec_usize(idx).as_str()));
        idx
    }

    /// Names a variable that holds the value of a short-circuit operator.
    pub fn alloc_sc(&mut self) -> (r: usize)
        requires
            old(self)@.sc_left(),
        ensures
            r == old(self)@.global_counter,
            final(self)@ == old(self)@.with_sc(),
    {
        let idx = self.global_counter;
        self.global_counter = self.global_counter + 1;
        self.global_names.push(cat2("@sc_", dec_u64(self.sc_counter as u64).as_str()));
        self.sc_counter = self.sc_counter + 1;
        idx
    }

    /// The index of a variable name, which is marked with `@` and added where it is new.
    pub fn intern_global(&mut self, name: String) -> (r: usize)
        requires
            old(self)@.wf(),
            old(self)@.global_counter < usize::MAX,
        ensures
            r == old(self)@.global_index(name@),
            final(self)@ == old(self)@.with_global(name@),
    {
        let name = mark_global(name);
        if let Some(pos) = find_string(&self.global_names, name.as_str()) {
            proof {
                text::position_is_first(self@.names.global_names, name@);
            }
            return self.global_counter - self.global_names.len() + pos;
        }
        let idx = self.global_counter;
        self.global_counter = self.global_counter + 1;
        self.global_names.push(name);
        idx
    }

    /// Adds the name of an SSA value.
    pub fn intern_local(&mut self, name: String) -> (r: usize)
        requires
            old(self)@.local_counter < usize::MAX,
        ensures
            r == old(self)@.local_counter,
            final(self)@ == (BuilderV {
                names: MetaV {
                    local_names: old(self)@.names.local_names.push(name@),
                    ..old(self)@.names
                },
                local_counter: (old(self)@.local_counter + 1) as usize,
                ..old(self)@
            }),
    {
        let idx = self.local_counter;
        self.local_counter = self.local_counter + 1;
        self.local_names.push(name);
        idx
    }

    /// Adds the name of a block.
    pub fn intern_block(&mut self, name: String) -> (r: usize)
        requires
            old(self)@.block_counter < usize::MAX,
        ensures
            r == old(self)@.block_counter,
            final(self)@ == (BuilderV {
                names: MetaV {
                    block_names: old(self)@.names.block_names.push(name@),
                    ..old(self)@.names
                },
                block_counter: (old(self)@.block_counter + 1) as usize,
                ..old(self)@
            }),
    {
        let idx = self.block_counter;
        self.block_counter = self.block_counter + 1;
        self.block_names.push(name);
        idx
    }

    /// Adds the name of a function.
    pub fn intern_func(&mut self, name: String) -> (r: usize)
        requires
            old(self)@.func_counter < usize::MAX,
        ensures
            r == old(self)@.func_counter,
            final(self)@ == (BuilderV {
                names: MetaV {
                    func_names: old(self)@.names.func_names.push(name@),
                    ..old(self)@.names
                },
                func_counter: (old(self)@.func_counter + 1) as usize,
                ..old(self)@
            }),
    {
        let idx = self.func_counter;
        self.func_counter = self.func_counter + 1;
        self.func_names.push(name);
        idx
    }

    pub fn local_name(&self, idx: usize) -> (r: &str)
        requires
            idx < self@.names.local_names.len(),
        ensures
            r@ == self@.names.local_names[idx as int],
    {
        self.local_names[idx].as_str()
    }

    pub fn global_name(&self, idx: usize) -> (r: &str)
        requires
            idx < self@.names.global_names.len(),
        ensures
            r@ == self@.names.global_names[idx as int],
    {
        self.global_names[idx].as_str()
    }

    pub fn block_name(&self, idx: usize) -> (r: &str)
        requires
            idx < self@.names.block_names.len(),
        ensures
            r@ == self@.names.block_names[idx as int],
    {
        self.block_names[idx].as_str()
    }

    pub fn func_name(&self, idx: usize) -> (r: &str)
        requires
            idx < self@.names.func_names.len(),
        ensures
            r@ == self@.names.func_names[idx as int],
    {
        self.func_names[idx].as_str()
    }

    /// Whether there is room for another label.
    pub fn has_label(&self) -> (r: bool)
        ensures
            r == (self@.block_counter < usize::MAX),
    {
        self.block_counter < usize::MAX
    }

    /// Whether there is room for another temporary.
    pub fn has_tmp(&self) -> (r: bool)
        ensures
            r == self@.tmp_left(),
    {
        self.local_counter < usize::MAX && self.tmp_counter < u32::MAX
    }

    /// Whether there is room for another variable name.
    pub fn has_global(&self) -> (r: bool)
        ensures
            r == (self@.global_counter < usize::MAX),
    {
        self.global_counter < usize::MAX
    }

    /// Whether there is room for another short-circuit variable.
    pub fn has_sc(&self) -> (r: bool)
        ensures
            r == self@.sc_left(),
    {
        self.global_counter < usize::MAX && self.sc_counter < u32::MAX
    }

    // ── Blocks ───────────────────────────────────────────────────────────────

    pub fn cur_block_idx(&self) -> (r: usize)
        ensures
            r == self@.cur_block,
    {
        self.cur_block
    }

    pub fn is_terminated(&self) -> (r: bool)
        ensures
            r == self@.terminated,
    {
        self.block_terminated
    }

    /// Starts a block with the given label and makes it current.
    pub fn start_block(&mut self, label_idx: usize)
        requires
            old(self)@.wf(),
        ensures
            final(self)@ == old(self)@.start(label_idx),
            final(self)@.wf(),
    {
        proof {
            start_keeps_wf(self@, label_idx);
        }
        let block = IrBlock { label: label_idx, instrs: Vec::new(), preds: Vec::new() };
        assert(block@.instrs =~= Seq::empty());
        assert(block@ =~= BlockV { label: label_idx, instrs: Seq::empty(), preds: Seq::empty() });
        self.blocks.push(block);
        self.cur_block = label_idx;
        self.block_terminated = false;
    }

    /// The position of the current block.
    fn cur_position(&self) -> (r: usize)
        requires
            self@.wf(),
        ensures
            block_position(self@.blocks, self@.cur_block) == Some(r as int),
            r < self.blocks@.len(),
    {
        let mut i: usize = 0;
        let ghost views = self@.blocks;
        proof {
            block_position_is_first(views, self.cur_block);
        }
        while self.blocks[i].label != self.cur_block
            invariant
                i < self.blocks.len(),
                views == ir::blocks_view(self.blocks@),
                block_position(views, self.cur_block) matches Some(k) && i <= k < views.len()
                    && views[k].label == self.cur_block && forall|j: int|
                    0 <= j < k ==> (#[trigger] views[j]).label != self.cur_block,
            decreases self.blocks@.len() - i,
        {
            assert(views[i as int].label == self.blocks@[i as int].label);
            assert(i + 1 < self.blocks.len());
            i = i + 1;
        }
        assert(views[i as int].label == self.blocks@[i as int].label);
        i
    }

    // ── Instructions ─────────────────────────────────────────────────────────

    /// Adds an instruction to the current block, which has no terminator yet.
    pub fn push(&mut self, inst: IrInst)
        requires
            old(self)@.wf(),
            !old(self)@.terminated,
        ensures
            final(self)@ == old(self)@.push(inst@),
            final(self)@.wf(),
    {
        proof {
            push_keeps_wf(self@, inst@);
        }
        let ghost before = self@;
        if inst.is_terminator() {
            self.block_terminated = true;
        }
        let k = self.cur_position();
        self.blocks[k].instrs.push(inst);
        assert(self@.blocks =~= before.push(inst@).blocks);
        assert(self@ =~= before.push(inst@));
    }

    pub fn emit_alloc(&mut self, dest: usize, ty: IrType)
        requires
            old(self)@.wf(),
            !old(self)@.terminated,
        ensures
            final(self)@ == old(self)@.push(InstV::Alloc { dest, ty }),
            final(self)@.wf(),
    {
        self.push(IrInst::Alloc { dest, ty });
    }

    pub fn emit_load(&mut self, src: IrOperand) -> (r: IrOperand)
        requires
            old(self)@.wf(),
            !old(self)@.terminated,
            old(self)@.tmp_left(),
        ensures
            r == IrOperand::Local(old(self)@.local_counter),
            final(self)@ == old(self)@.with_tmp().push(
                InstV::Load { dest: old(self)@.local_counter, src },
            ),
            final(self)@.wf(),
    {
        let dest = self.alloc_tmp();
        self.push(IrInst::Load { dest, src });
        IrOperand::Local(dest)
    }

    pub fn emit_store(&mut self, value: IrOperand, ptr: IrOperand)
        requires
            old(self)@.wf(),
            !old(self)@.terminated,
        ensures
            final(self)@ == old(self)@.push(InstV::Store { value, ptr }),
            final(self)@.wf(),
    {
        self.push(IrInst::Store { value, ptr });
    }

    pub fn emit_arith(&mut self, op: IrArithOp, lhs: IrOperand, rhs: IrOperand) -> (r: IrOperand)
        requires
            old(self)@.wf(),
            !old(self)@.terminated,
            old(self)@.tmp_left(),
        ensures
            r == IrOperand::Local(old(self)@.local_counter),
            final(self)@ == old(self)@.with_tmp().push(
                InstV::Arith { dest: old(self)@.local_counter, op, lhs, rhs },
            ),
            final(self)@.wf(),
    {
        let dest = self.alloc_tmp();
        self.push(IrInst::Arith { dest, op, lhs, rhs });
        IrOperand::Local(dest)
    }

    pub fn emit_icmp(&mut self, op: IrCmpOp, lhs: IrOperand, rhs: IrOperand) -> (r: IrOperand)
        requires
            old(self)@.wf(),
            !old(self)@.terminated,
            old(self)@.tmp_left(),
        ensures
            r == IrOperand::Local(old(self)@.local_counter),
            final(self)@ == old(self)@.with_tmp().push(
                InstV::Icmp { dest: old(self)@.local_counter, op, lhs, rhs },
            ),
            final(self)@.wf(),
    {
        let dest = self.alloc_tmp();
        self.push(IrInst::Icmp { dest, op, lhs, rhs });
        IrOperand::Local(dest)
    }

    pub fn emit_getptr(&mut self, ptr: IrOperand, index: IrOperand, elem_size: i32) -> (r: IrOperand)
        requires
            old(self)@.wf(),
            !old(self)@.terminated,
            old(self)@.tmp_left(),
        ensures
            r == IrOperand::Local(old(self)@.local_counter),
            final(self)@ == old(self)@.with_tmp().push(
                InstV::GetPtr { dest: old(self)@.local_counter, ptr, index, elem_size },
            ),
            final(self)@.wf(),
    {
        let dest = self.alloc_tmp();
        self.push(IrInst::GetPtr { dest, ptr, index, elem_size });
        IrOperand::Local(dest)
    }

    pub fn emit_getelemptr(&mut self, ptr: IrOperand, index: IrOperand, elem_size: i32) -> (r:
        IrOperand)
        requires
            old(self)@.wf(),
            !old(self)@.terminated,
            old(self)@.tmp_left(),
        ensures
            r == IrOperand::Local(old(self)@.local_counter),
            final(self)@ == old(self)@.with_tmp().push(
                InstV::GetElemPtr { dest: old(self)@.local_counter, ptr, index, elem_size },
            ),
            final(self)@.wf(),
    {
        let dest = self.alloc_tmp();
        self.push(IrInst::GetElemPtr { dest, ptr, index, elem_size });
        IrOperand::Local(dest)
    }

    /// Calls a function; the result is that of the call where it has one.
    pub fn emit_call(&mut self, func: usize, args: Vec<IrOperand>, has_ret: bool) -> (r: Option<
        IrOperand,
    >)
        requires
            old(self)@.wf(),
            !old(self)@.terminated,
            has_ret ==> old(self)@.tmp_left(),
        ensures
            has_ret ==> r == Some(IrOperand::Local(old(self)@.local_counter)) && final(self)@
                == old(self)@.with_tmp().push(
                InstV::Call { dest: Some(old(self)@.local_counter), func, args: args@ },
            ),
            !has_ret ==> r is None && final(self)@ == old(self)@.push(
                InstV::Call { dest: None, func, args: args@ },
            ),
            final(self)@.wf(),
    {
        if has_ret {
            let dest = self.alloc_tmp();
            self.push(IrInst::Call { dest: Some(dest), func, args });
            Some(IrOperand::Local(dest))
        } else {
            self.push(IrInst::Call { dest: None, func, args });
            None
        }
    }

    pub fn emit_br(&mut self, cond: IrOperand, then_bb: usize, else_bb: usize)
        requires
            old(self)@.wf(),
            !old(self)@.terminated,
        ensures
            final(self)@ == old(self)@.push(InstV::Br { cond, then_bb, else_bb }),
            final(self)@.wf(),
    {
        self.push(IrInst::Br { cond, then_bb, else_bb });
    }

    pub fn emit_jump(&mut self, target: usize)
        requires
            old(self)@.wf(),
            !old(self)@.terminated,
        ensures
            final(self)@ == old(self)@.push(InstV::Jump { target }),
            final(self)@.wf(),
    {
        self.push(IrInst::Jump { target });
    }

    pub fn emit_ret(&mut self, value: Option<IrOperand>)
        requires
            old(self)@.wf(),
            !old(self)@.terminated,
        ensures
            final(self)@ == old(self)@.push(InstV::Ret { value }),
            final(self)@.wf(),
    {
        self.push(IrInst::Ret { value });
    }

    pub fn emit_phi(&mut self, incoming: Vec<(IrOperand, usize)>) -> (r: IrOperand)
        requires
            old(self)@.wf(),
            !old(self)@.terminated,
            old(self)@.tmp_left(),
        ensures
            r == IrOperand::Local(old(self)@.local_counter),
            final(self)@ == old(self)@.with_tmp().push(
                InstV::Phi { dest: old(self)@.local_counter, incoming: incoming@ },
            ),
            final(self)@.wf(),
    {
        let dest = self.alloc_tmp();
        self.push(IrInst::Phi { dest, incoming });
        IrOperand::Local(dest)
    }

    /// Inline assembly as a statement.
    pub fn emit_asm(&mut self, raw: String)
        requires
            old(self)@.wf(),
            !old(self)@.terminated,
        ensures
            final(self)@ == old(self)@.push(InstV::Asm { dest: None, code: raw@ }),
            final(self)@.wf(),
    {
        self.push(IrInst::Asm { dest: None, code: raw });
    }

    /// Inline assembly as an expression, whose value it leaves in `a0`.
    pub fn emit_asm_expr(&mut self, raw: String) -> (r: IrOperand)
        requires
            old(self)@.wf(),
            !old(self)@.terminated,
            old(self)@.tmp_left(),
        ensures
            r == IrOperand::Local(old(self)@.local_counter),
            final(self)@ == old(self)@.with_tmp().push(
                InstV::Asm { dest: Some(old(self)@.local_counter), code: raw@ },
            ),
            final(self)@.wf(),
    {
        let dest = self.alloc_tmp();
        self.push(IrInst::Asm { dest: Some(dest), code: raw });
        IrOperand::Local(dest)
    }

    /// Puts a variable down to be allocated at the start of the entry block.
    pub fn add_pending_alloca(&mut self, name_idx: usize, ty: IrType)
        ensures
            final(self)@ == old(self)@.with_pending(name_idx, ty),
            old(self)@.wf() ==> final(self)@.wf(),
    {
        self.pending_allocas.push((name_idx, ty));
    }

    // ── The finished function ────────────────────────────────────────────────

    /// The function, with its variables allocated in the entry block, and the name tables.
    pub fn build(self) -> (r: (IrFunc, BuilderMeta))
        requires
            self@.wf(),
        ensures
            r.0@ == self@.built(),
            r.1@ == self@.names,
    {
        let ghost b = self@;
        let mut blocks = self.blocks;
        let mut instrs: Vec<IrInst> = Vec::new();
        let pending = self.pending_allocas;
        let mut i: usize = 0;
        while i < pending.len()
            invariant
                i <= pending.len(),
                ir::insts(instrs@) =~= allocs(pending@.take(i as int)),
            decreases pending.len() - i,
        {
            instrs.push(IrInst::Alloc { dest: pending[i].0, ty: pending[i].1.clone() });
            i = i + 1;
            assert(pending@.take(i as int) =~= pending@.take(i - 1).push(pending@[i - 1]));
        }
        assert(pending@.take(i as int) =~= pending@);
        let entry = &blocks[0];
        let mut j: usize = 0;
        let ghost head = ir::insts(instrs@);
        while j < entry.instrs.len()
            invariant
                j <= entry.instrs.len(),
                ir::insts(instrs@) =~= head + ir::insts(entry.instrs@).take(j as int),
            decreases entry.instrs.len() - j,
        {
            instrs.push(entry.instrs[j].clone());
            j = j + 1;
            assert(ir::insts(entry.instrs@).take(j as int) =~= ir::insts(entry.instrs@).take(
                j - 1,
            ).push(entry.instrs@[j - 1]@));
        }
        assert(ir::insts(entry.instrs@).take(j as int) =~= ir::insts(entry.instrs@));
        blocks[0].instrs = instrs;
        assert(ir::blocks_view(blocks@) =~= b.built().blocks);
        let func = IrFunc {
            name: self.func_name,
            params: self.params,
            ret_type: self.ret_type,
            allocas: Vec::new(),
            blocks,
        };
        assert(func@ =~= b.built());
        let meta = BuilderMeta {
            local_names: self.local_names,
            global_names: self.global_names,
            block_names: self.block_names,
            func_names: self.func_names,
        };
        (func, meta)
    }
}

// ── Temporaries ──────────────────────────────────────────────────────────────

/// A builder after a number of temporaries have been named.
pub open spec fn with_tmps(b: BuilderV, n: nat) -> BuilderV
    decreases n,
{
    if n == 0 {
        b
    } else {
        with_tmps(b, (n - 1) as nat).with_tmp()
    }
}

/// The temporaries of a new builder have indices one after the other, from the base on, and are
/// named by their numbers from zero on; naming them changes nothing but the table of their names
/// and the two counters.
pub proof fn temporaries_count_up(
    name: usize,
    params: Seq<(usize, IrType)>,
    ret_type: IrType,
    base_local: usize,
    base_global: usize,
    base_block: usize,
    base_func: usize,
    n: nat,
)
    requires
        base_local + n <= usize::MAX,
        n <= u32::MAX,
    ensures
        ({
            let b = new_builder(
                name,
                params,
                ret_type,
                base_local,
                base_global,
                base_block,
                base_func,
            );
            let c = with_tmps(b, n);
            &&& c.local_counter == base_local + n
            &&& c.tmp_counter == n
            &&& c.names.local_names == Seq::new(n, |k: int| "%"@ + text::dec_nat(k as nat))
            &&& c == (BuilderV {
                names: MetaV { local_names: c.names.local_names, ..b.names },
                local_counter: c.local_counter,
                tmp_counter: c.tmp_counter,
                ..b
            })
        }),
    decreases n,
{
    if n > 0 {
        let before = (n - 1) as nat;
        temporaries_count_up(
            name,
            params,
            ret_type,
            base_local,
            base_global,
            base_block,
            base_func,
            before,
        );
        let b = new_builder(
            name,
            params,
            ret_type,
            base_local,
            base_global,
            base_block,
            base_func,
        );
        assert(with_tmps(b, n).names.local_names =~= Seq::new(
            n,
            |k: int| "%"@ + text::dec_nat(k as nat),
        ));
    }
}

} // verus!

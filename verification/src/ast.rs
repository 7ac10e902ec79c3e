//! The syntax tree of a program.
//!
//! Every type has a view: the same tree with mathematical sequences in place of vectors and
//! strings.

use vstd::prelude::*;

verus! {

#[derive(Debug, PartialEq, Eq)]
pub struct CompUnit {
    pub items: Vec<GlobalItem>,
}

#[derive(Debug, PartialEq, Eq)]
pub enum GlobalItem {
    FuncDef(FuncDef),
    FuncDecl(FuncDecl),
    Decl(Decl),
}

#[derive(Debug, PartialEq, Eq)]
pub struct FuncDecl {
    pub ret_type: Type,
    pub name: String,
    pub params: Vec<FuncParam>,
}

#[derive(Debug, PartialEq, Eq)]
pub struct FuncDef {
    pub ret_type: Type,
    pub name: String,
    pub params: Vec<FuncParam>,
    pub body: Block,
}

#[derive(Debug, Clone, Copy, PartialEq, Eq, Structural)]
pub enum Type {
    Int,
    Void,
}

impl View for Type {
    type V = Type;

    open spec fn view(&self) -> Type {
        *self
    }
}

/// A parameter: `int x`, `int x[]` (`is_array`, no `array_dims`) or `int x[][d]...`.
#[derive(Debug, PartialEq, Eq)]
pub struct FuncParam {
    pub name: String,
    pub is_array: bool,
    pub array_dims: Vec<Expr>,
}

#[derive(Debug, PartialEq, Eq)]
pub struct Block {
    pub items: Vec<BlockItem>,
}

#[derive(Debug, PartialEq, Eq)]
pub enum BlockItem {
    Decl(Decl),
    Stmt(Stmt),
}

#[derive(Debug, PartialEq, Eq)]
pub enum Decl {
    Const(Vec<ConstDef>),
    Var(Vec<VarDef>),
}

#[derive(Debug, PartialEq, Eq)]
pub struct ConstDef {
    pub name: String,
    pub dims: Vec<Expr>,
    pub init: Expr,
}

#[derive(Debug, PartialEq, Eq)]
pub struct VarDef {
    pub name: String,
    pub dims: Vec<Expr>,
    pub init: Option<Expr>,
}

#[derive(Debug, PartialEq, Eq)]
pub enum Stmt {
    Return(Option<Expr>),
    Assign { name: String, index: Vec<Expr>, expr: Expr },
    Expr(Expr),
    Block(Block),
    If { cond: Expr, then_branch: Box<Stmt>, else_branch: Option<Box<Stmt>> },
    While { cond: Expr, body: Box<Stmt> },
    Break,
    Continue,
    /// A lone semicolon.
    Empty,
    /// Inline assembly.
    Asm(String),
}

#[derive(Debug, PartialEq, Eq)]
pub enum Expr {
    Int(i32),
    LVal(String),
    Unary { op: UnaryOp, expr: Box<Expr> },
    Binary { op: BinaryOp, lhs: Box<Expr>, rhs: Box<Expr> },
    Call { name: String, args: Vec<Expr> },
    Index { array: Box<Expr>, index: Box<Expr> },
    /// A braced initializer list.
    InitList(Vec<Expr>),
    /// Inline assembly whose value is what it leaves in `a0`.
    Asm(String),
}

#[derive(Debug, Clone, Copy, PartialEq, Eq, Structural)]
pub enum UnaryOp {
    Plus,
    Minus,
    Not,
}

#[derive(Debug, Clone, Copy, PartialEq, Eq, Structural)]
pub enum BinaryOp {
    Mul,
    Div,
    Rem,
    Add,
    Sub,
    Lt,
    Gt,
    Le,
    Ge,
    Eq,
    Ne,
    And,
    Or,
}

// ── Views ────────────────────────────────────────────────────────────────────

/// The view of an [`Expr`].
pub enum ExprV {
    Int(i32),
    LVal(Seq<char>),
    Unary { op: UnaryOp, expr: Box<ExprV> },
    Binary { op: BinaryOp, lhs: Box<ExprV>, rhs: Box<ExprV> },
    Call { name: Seq<char>, args: Seq<ExprV> },
    Index { array: Box<ExprV>, index: Box<ExprV> },
    InitList(Seq<ExprV>),
    Asm(Seq<char>),
}

/// The view of a [`ConstDef`].
pub struct ConstDefV {
    pub name: Seq<char>,
    pub dims: Seq<ExprV>,
    pub init: ExprV,
}

/// The view of a [`VarDef`].
pub struct VarDefV {
    pub name: Seq<char>,
    pub dims: Seq<ExprV>,
    pub init: Option<ExprV>,
}

/// The view of a [`Decl`].
pub enum DeclV {
    Const(Seq<ConstDefV>),
    Var(Seq<VarDefV>),
}

/// The view of a [`Stmt`].
pub enum StmtV {
    Return(Option<ExprV>),
    Assign { name: Seq<char>, index: Seq<ExprV>, expr: ExprV },
    Expr(ExprV),
    Block(Seq<BlockItemV>),
    If { cond: ExprV, then_branch: Box<StmtV>, else_branch: Option<Box<StmtV>> },
    While { cond: ExprV, body: Box<StmtV> },
    Break,
    Continue,
    Empty,
    Asm(Seq<char>),
}

/// The view of a [`BlockItem`].
pub enum BlockItemV {
    Decl(DeclV),
    Stmt(StmtV),
}

/// The view of a [`FuncParam`].
pub struct FuncParamV {
    pub name: Seq<char>,
    pub is_array: bool,
    pub array_dims: Seq<ExprV>,
}

/// The view of a [`FuncDecl`].
pub struct FuncDeclV {
    pub ret_type: Type,
    pub name: Seq<char>,
    pub params: Seq<FuncParamV>,
}

/// The view of a [`FuncDef`].
pub struct FuncDefV {
    pub ret_type: Type,
    pub name: Seq<char>,
    pub params: Seq<FuncParamV>,
    pub body: Seq<BlockItemV>,
}

/// The view of a [`GlobalItem`].
pub enum GlobalItemV {
    FuncDef(FuncDefV),
    FuncDecl(FuncDeclV),
    Decl(DeclV),
}

impl Expr {
    pub open spec fn view(self) -> ExprV
        decreases self,
    {
        match self {
            Expr::Int(n) => ExprV::Int(n),
            Expr::LVal(name) => ExprV::LVal(name@),
            Expr::Unary { op, expr } => ExprV::Unary { op, expr: Box::new(expr.view()) },
            Expr::Binary { op, lhs, rhs } => ExprV::Binary {
                op,
                lhs: Box::new(lhs.view()),
                rhs: Box::new(rhs.view()),
            },
            Expr::Call { name, args } => ExprV::Call {
                name: name@,
                args: Seq::new(
                    args@.len(),
                    |i: int|
                        if 0 <= i < args@.len() {
                            args@[i].view()
                        } else {
                            arbitrary()
                        },
                ),
            },
            Expr::Index { array, index } => ExprV::Index {
                array: Box::new(array.view()),
                index: Box::new(index.view()),
            },
            Expr::InitList(items) => ExprV::InitList(
                Seq::new(
                    items@.len(),
                    |i: int|
                        if 0 <= i < items@.len() {
                            items@[i].view()
                        } else {
                            arbitrary()
                        },
                ),
            ),
            Expr::Asm(code) => ExprV::Asm(code@),
        }
    }
}

/// The views of a list of expressions.
pub open spec fn exprs(v: Seq<Expr>) -> Seq<ExprV> {
    Seq::new(v.len(), |i: int| v[i].view())
}

pub broadcast proof fn exprs_push(v: Seq<Expr>, e: Expr)
    ensures
        #[trigger] exprs(v.push(e)) == exprs(v).push(e.view()),
{
    assert(exprs(v.push(e)) =~= exprs(v).push(e.view()));
}

/// The view of a call is made of the view of its arguments.
pub broadcast proof fn call_view(name: String, args: Vec<Expr>)
    ensures
        #[trigger] (Expr::Call { name, args }).view() == (ExprV::Call {
            name: name@,
            args: exprs(args@),
        }),
{
    assert((Expr::Call { name, args }).view()->args =~= exprs(args@));
}

/// The view of an initializer list is made of the views of its items.
pub broadcast proof fn init_list_view(items: Vec<Expr>)
    ensures
        #[trigger] Expr::InitList(items).view() == ExprV::InitList(exprs(items@)),
{
    assert(Expr::InitList(items).view()->InitList_0 =~= exprs(items@));
}

impl ConstDef {
    pub open spec fn view(self) -> ConstDefV {
        ConstDefV { name: self.name@, dims: exprs(self.dims@), init: self.init.view() }
    }
}

impl VarDef {
    pub open spec fn view(self) -> VarDefV {
        VarDefV {
            name: self.name@,
            dims: exprs(self.dims@),
            init: match self.init {
                Some(e) => Some(e.view()),
                None => None,
            },
        }
    }
}

impl Decl {
    pub open spec fn view(self) -> DeclV {
        match self {
            Decl::Const(defs) => DeclV::Const(defs@.map_values(|d: ConstDef| d.view())),
            Decl::Var(defs) => DeclV::Var(defs@.map_values(|d: VarDef| d.view())),
        }
    }
}

impl Stmt {
    pub open spec fn view(self) -> StmtV
        decreases self,
    {
        match self {
            Stmt::Return(value) => StmtV::Return(
                match value {
                    Some(e) => Some(e.view()),
                    None => None,
                },
            ),
            Stmt::Assign { name, index, expr } => StmtV::Assign {
                name: name@,
                index: exprs(index@),
                expr: expr.view(),
            },
            Stmt::Expr(e) => StmtV::Expr(e.view()),
            Stmt::Block(block) => StmtV::Block(block.view()),
            Stmt::If { cond, then_branch, else_branch } => StmtV::If {
                cond: cond.view(),
                then_branch: Box::new(then_branch.view()),
                else_branch: match else_branch {
                    Some(s) => Some(Box::new(s.view())),
                    None => None,
                },
            },
            Stmt::While { cond, body } => StmtV::While {
                cond: cond.view(),
                body: Box::new(body.view()),
            },
            Stmt::Break => StmtV::Break,
            Stmt::Continue => StmtV::Continue,
            Stmt::Empty => StmtV::Empty,
            Stmt::Asm(code) => StmtV::Asm(code@),
        }
    }
}

impl BlockItem {
    pub open spec fn view(self) -> BlockItemV
        decreases self,
    {
        match self {
            BlockItem::Decl(d) => BlockItemV::Decl(d.view()),
            BlockItem::Stmt(s) => BlockItemV::Stmt(s.view()),
        }
    }
}

impl Block {
    pub open spec fn view(self) -> Seq<BlockItemV>
        decreases self,
    {
        Seq::new(
            self.items@.len(),
            |i: int|
                if 0 <= i < self.items@.len() {
                    self.items@[i].view()
                } else {
                    arbitrary()
                },
        )
    }
}

/// The views of a list of block items.
pub open spec fn block_items(v: Seq<BlockItem>) -> Seq<BlockItemV> {
    Seq::new(v.len(), |i: int| v[i].view())
}

pub broadcast proof fn block_items_push(v: Seq<BlockItem>, e: BlockItem)
    ensures
        #[trigger] block_items(v.push(e)) == block_items(v).push(e.view()),
{
    assert(block_items(v.push(e)) =~= block_items(v).push(e.view()));
}

/// The view of a block is made of the views of its items.
pub broadcast proof fn block_view(b: Block)
    ensures
        #[trigger] b.view() == block_items(b.items@),
{
    assert(b.view() =~= block_items(b.items@));
}

impl FuncParam {
    pub open spec fn view(self) -> FuncParamV {
        FuncParamV { name: self.name@, is_array: self.is_array, array_dims: exprs(self.array_dims@) }
    }
}

/// The views of a list of parameters.
pub open spec fn params(v: Seq<FuncParam>) -> Seq<FuncParamV> {
    v.map_values(|p: FuncParam| p.view())
}

impl FuncDecl {
    pub open spec fn view(self) -> FuncDeclV {
        FuncDeclV { ret_type: self.ret_type, name: self.name@, params: params(self.params@) }
    }
}

impl FuncDef {
    pub open spec fn view(self) -> FuncDefV {
        FuncDefV {
            ret_type: self.ret_type,
            name: self.name@,
            params: params(self.params@),
            body: self.body.view(),
        }
    }
}

impl GlobalItem {
    pub open spec fn view(self) -> GlobalItemV {
        match self {
            GlobalItem::FuncDef(f) => GlobalItemV::FuncDef(f.view()),
            GlobalItem::FuncDecl(f) => GlobalItemV::FuncDecl(f.view()),
            GlobalItem::Decl(d) => GlobalItemV::Decl(d.view()),
        }
    }
}

impl CompUnit {
    pub open spec fn view(self) -> Seq<GlobalItemV> {
        self.items@.map_values(|g: GlobalItem| g.view())
    }
}

// ── Copies ───────────────────────────────────────────────────────────────────

fn copy_expr(e: &Expr) -> (r: Expr)
    ensures
        r.view() == e.view(),
    decreases e, 0int,
{
    match e {
        Expr::Int(n) => Expr::Int(*n),
        Expr::LVal(name) => Expr::LVal(name.clone()),
        Expr::Unary { op, expr } => Expr::Unary { op: *op, expr: Box::new(copy_expr(expr)) },
        Expr::Binary { op, lhs, rhs } => Expr::Binary {
            op: *op,
            lhs: Box::new(copy_expr(lhs)),
            rhs: Box::new(copy_expr(rhs)),
        },
        Expr::Call { name, args } => {
            broadcast use call_view;

            Expr::Call { name: name.clone(), args: copy_exprs(args) }
        },
        Expr::Index { array, index } => Expr::Index {
            array: Box::new(copy_expr(array)),
            index: Box::new(copy_expr(index)),
        },
        Expr::InitList(items) => {
            broadcast use init_list_view;

            Expr::InitList(copy_exprs(items))
        },
        Expr::Asm(code) => Expr::Asm(code.clone()),
    }
}

#[verifier::loop_isolation(false)]
fn copy_exprs(v: &Vec<Expr>) -> (r: Vec<Expr>)
    ensures
        exprs(r@) == exprs(v@),
    decreases v, 1int,
{
    let mut out: Vec<Expr> = Vec::new();
    let mut i: usize = 0;
    while i < v.len()
        invariant
            i <= v.len(),
            out@.len() == i,
            forall|k: int| 0 <= k < i ==> (#[trigger] out@[k]).view() == v@[k].view(),
        decreases v.len() - i,
    {
        assert(decreases_to!(v => v@, v@[i as int]));
        out.push(copy_expr(&v[i]));
        i = i + 1;
    }
    assert(exprs(out@) =~= exprs(v@));
    out
}

impl Clone for Expr {
    fn clone(&self) -> (r: Self)
        ensures
            r.view() == self.view(),
    {
        copy_expr(self)
    }
}

impl Clone for ConstDef {
    fn clone(&self) -> (r: Self)
        ensures
            r.view() == self.view(),
    {
        ConstDef {
            name: self.name.clone(),
            dims: copy_exprs(&self.dims),
            init: copy_expr(&self.init),
        }
    }
}

fn copy_option(e: &Option<Expr>) -> (r: Option<Expr>)
    ensures
        match *e {
            Some(x) => r matches Some(y) && y.view() == x.view(),
            None => r is None,
        },
{
    match e {
        Some(x) => Some(copy_expr(x)),
        None => None,
    }
}

impl Clone for VarDef {
    fn clone(&self) -> (r: Self)
        ensures
            r.view() == self.view(),
    {
        VarDef {
            name: self.name.clone(),
            dims: copy_exprs(&self.dims),
            init: copy_option(&self.init),
        }
    }
}

#[verifier::loop_isolation(false)]
fn copy_const_defs(v: &Vec<ConstDef>) -> (r: Vec<ConstDef>)
    ensures
        r@.map_values(|d: ConstDef| d.view()) == v@.map_values(|d: ConstDef| d.view()),
{
    let mut out: Vec<ConstDef> = Vec::new();
    let mut i: usize = 0;
    while i < v.len()
        invariant
            i <= v.len(),
            out@.len() == i,
            forall|k: int| 0 <= k < i ==> (#[trigger] out@[k]).view() == v@[k].view(),
        decreases v.len() - i,
    {
        out.push(v[i].clone());
        i = i + 1;
    }
    assert(out@.map_values(|d: ConstDef| d.view()) =~= v@.map_values(|d: ConstDef| d.view()));
    out
}

#[verifier::loop_isolation(false)]
fn copy_var_defs(v: &Vec<VarDef>) -> (r: Vec<VarDef>)
    ensures
        r@.map_values(|d: VarDef| d.view()) == v@.map_values(|d: VarDef| d.view()),
{
    let mut out: Vec<VarDef> = Vec::new();
    let mut i: usize = 0;
    while i < v.len()
        invariant
            i <= v.len(),
            out@.len() == i,
            forall|k: int| 0 <= k < i ==> (#[trigger] out@[k]).view() == v@[k].view(),
        decreases v.len() - i,
    {
        out.push(v[i].clone());
        i = i + 1;
    }
    assert(out@.map_values(|d: VarDef| d.view()) =~= v@.map_values(|d: VarDef| d.view()));
    out
}

impl Clone for Decl {
    fn clone(&self) -> (r: Self)
        ensures
            r.view() == self.view(),
    {
        match self {
            Decl::Const(defs) => Decl::Const(copy_const_defs(defs)),
            Decl::Var(defs) => Decl::Var(copy_var_defs(defs)),
        }
    }
}

fn copy_stmt(s: &Stmt) -> (r: Stmt)
    ensures
        r.view() == s.view(),
    decreases s,
{
    match s {
        Stmt::Return(value) => Stmt::Return(copy_option(value)),
        Stmt::Assign { name, index, expr } => Stmt::Assign {
            name: name.clone(),
            index: copy_exprs(index),
            expr: copy_expr(expr),
        },
        Stmt::Expr(e) => Stmt::Expr(copy_expr(e)),
        Stmt::Block(block) => Stmt::Block(copy_block(block)),
        Stmt::If { cond, then_branch, else_branch } => Stmt::If {
            cond: copy_expr(cond),
            then_branch: Box::new(copy_stmt(then_branch)),
            else_branch: match else_branch {
                Some(els) => Some(Box::new(copy_stmt(els))),
                None => None,
            },
        },
        Stmt::While { cond, body } => Stmt::While {
            cond: copy_expr(cond),
            body: Box::new(copy_stmt(body)),
        },
        Stmt::Break => Stmt::Break,
        Stmt::Continue => Stmt::Continue,
        Stmt::Empty => Stmt::Empty,
        Stmt::Asm(code) => Stmt::Asm(code.clone()),
    }
}

fn copy_item(item: &BlockItem) -> (r: BlockItem)
    ensures
        r.view() == item.view(),
    decreases item,
{
    match item {
        BlockItem::Decl(d) => BlockItem::Decl(d.clone()),
        BlockItem::Stmt(s) => BlockItem::Stmt(copy_stmt(s)),
    }
}

#[verifier::loop_isolation(false)]
fn copy_block(block: &Block) -> (r: Block)
    ensures
        r.view() == block.view(),
    decreases block,
{
    let mut items: Vec<BlockItem> = Vec::new();
    let mut i: usize = 0;
    while i < block.items.len()
        invariant
            i <= block.items.len(),
            items@.len() == i,
            forall|k: int| 0 <= k < i ==> (#[trigger] items@[k]).view() == block.items@[k].view(),
        decreases block.items.len() - i,
    {
        items.push(copy_item(&block.items[i]));
        i = i + 1;
    }
    let r = Block { items };
    assert(r.view() =~= block.view());
    r
}

impl Clone for Stmt {
    fn clone(&self) -> (r: Self)
        ensures
            r.view() == self.view(),
    {
        copy_stmt(self)
    }
}

impl Clone for BlockItem {
    fn clone(&self) -> (r: Self)
        ensures
            r.view() == self.view(),
    {
        copy_item(self)
    }
}

impl Clone for Block {
    fn clone(&self) -> (r: Self)
        ensures
            r.view() == self.view(),
    {
        copy_block(self)
    }
}

impl Clone for FuncParam {
    fn clone(&self) -> (r: Self)
        ensures
            r.view() == self.view(),
    {
        FuncParam {
            name: self.name.clone(),
            is_array: self.is_array,
            array_dims: copy_exprs(&self.array_dims),
        }
    }
}

#[verifier::loop_isolation(false)]
fn copy_params(v: &Vec<FuncParam>) -> (r: Vec<FuncParam>)
    ensures
        params(r@) == params(v@),
{
    let mut out: Vec<FuncParam> = Vec::new();
    let mut i: usize = 0;
    while i < v.len()
        invariant
            i <= v.len(),
            out@.len() == i,
            forall|k: int| 0 <= k < i ==> (#[trigger] out@[k]).view() == v@[k].view(),
        decreases v.len() - i,
    {
        out.push(v[i].clone());
        i = i + 1;
    }
    assert(params(out@) =~= params(v@));
    out
}

impl Clone for FuncDecl {
    fn clone(&self) -> (r: Self)
        ensures
            r.view() == self.view(),
    {
        FuncDecl {
            ret_type: self.ret_type,
            name: self.name.clone(),
            params: copy_params(&self.params),
        }
    }
}

impl Clone for FuncDef {
    fn clone(&self) -> (r: Self)
        ensures
            r.view() == self.view(),
    {
        FuncDef {
            ret_type: self.ret_type,
            name: self.name.clone(),
            params: copy_params(&self.params),
            body: copy_block(&self.body),
        }
    }
}

impl Clone for GlobalItem {
    fn clone(&self) -> (r: Self)
        ensures
            r.view() == self.view(),
    {
        match self {
            GlobalItem::FuncDef(f) => GlobalItem::FuncDef(f.clone()),
            GlobalItem::FuncDecl(f) => GlobalItem::FuncDecl(f.clone()),
            GlobalItem::Decl(d) => GlobalItem::Decl(d.clone()),
        }
    }
}

#[verifier::loop_isolation(false)]
fn copy_globals(v: &Vec<GlobalItem>) -> (r: Vec<GlobalItem>)
    ensures
        r@.map_values(|d: GlobalItem| d.view()) == v@.map_values(|d: GlobalItem| d.view()),
{
    let mut out: Vec<GlobalItem> = Vec::new();
    let mut i: usize = 0;
    while i < v.len()
        invariant
            i <= v.len(),
            out@.len() == i,
            forall|k: int| 0 <= k < i ==> (#[trigger] out@[k]).view() == v@[k].view(),
        decreases v.len() - i,
    {
        out.push(v[i].clone());
        i = i + 1;
    }
    assert(out@.map_values(|d: GlobalItem| d.view()) =~= v@.map_values(|d: GlobalItem| d.view()));
    out
}

impl Clone for CompUnit {
    fn clone(&self) -> (r: Self)
        ensures
            r.view() == self.view(),
    {
        CompUnit { items: copy_globals(&self.items) }
    }
}

} // verus!

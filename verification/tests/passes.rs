use compiler::cfg::Cfg;
use compiler::ir::{
    IrArithOp, IrBlock, IrCmpOp, IrFunc, IrInst, IrOperand, IrProgram, IrType,
};
use compiler::opt::const_fold::ConstFold;
use compiler::opt::dce::DeadCodeElim;
use compiler::opt::gvn::GVN;
use compiler::opt::inline::Inline;
use compiler::opt::{IrFuncPass, IrProgramPass, PassManager, StandardPass};
use compiler::ssa::{compute_df, compute_idom, dom_tree_children, lower_phis, mem2reg};

fn num(n: i32) -> IrOperand {
    IrOperand::Int(n)
}

fn local(n: usize) -> IrOperand {
    IrOperand::Local(n)
}

fn global(n: usize) -> IrOperand {
    IrOperand::Global(n)
}

fn arith(dest: usize, op: IrArithOp, lhs: IrOperand, rhs: IrOperand) -> IrInst {
    IrInst::Arith { dest, op, lhs, rhs }
}

fn ret(v: IrOperand) -> IrInst {
    IrInst::Ret { value: Some(v) }
}

fn block(label: usize, instrs: Vec<IrInst>) -> IrBlock {
    IrBlock { label, instrs, preds: vec![] }
}

fn func(blocks: Vec<IrBlock>) -> IrFunc {
    IrFunc { name: 0, params: vec![], ret_type: IrType::I32, allocas: vec![], blocks }
}

fn shown(instrs: &Vec<IrInst>) -> String {
    format!("{instrs:?}")
}

/// A block that goes to two, which both go to a last one.
fn diamond() -> IrFunc {
    func(vec![
        block(10, vec![IrInst::Br { cond: num(1), then_bb: 11, else_bb: 12 }]),
        block(11, vec![IrInst::Jump { target: 13 }]),
        block(12, vec![IrInst::Jump { target: 13 }]),
        block(13, vec![ret(num(0))]),
    ])
}

#[test]
fn the_graph_of_a_diamond() {
    let mut f = diamond();
    let g = Cfg::build(&mut f);
    assert_eq!(g.len(), 4);
    assert!(!g.is_empty());
    assert_eq!(g.successors, vec![vec![1, 2], vec![3], vec![3], vec![]]);
    assert_eq!(g.predecessors, vec![vec![], vec![0], vec![0], vec![1, 2]]);
    assert_eq!(f.blocks[3].preds, vec![11, 12]);
}

#[test]
fn the_dominators_of_a_diamond() {
    let mut f = diamond();
    let g = Cfg::build(&mut f);
    let idom = compute_idom(&g);
    assert_eq!(idom, vec![0, 0, 0, 0]);
    assert_eq!(dom_tree_children(&idom), vec![vec![1, 2, 3], vec![], vec![], vec![]]);
    let df = compute_df(&g, &idom);
    assert!(df[0].is_empty() && df[3].is_empty());
    assert!(df[1].contains(&3) && df[1].len() == 1);
    assert!(df[2].contains(&3) && df[2].len() == 1);
}

#[test]
fn folding_computes_constants() {
    let mut f = func(vec![block(
        0,
        vec![
            arith(0, IrArithOp::Mul, num(6), num(7)),
            arith(1, IrArithOp::Div, num(7), num(2)),
            arith(2, IrArithOp::Mod, num(-7), num(2)),
            arith(3, IrArithOp::Add, num(i32::MAX), num(1)),
            arith(4, IrArithOp::Mul, num(1), local(9)),
            arith(5, IrArithOp::Mul, local(9), num(0)),
            arith(6, IrArithOp::Add, num(0), local(9)),
            IrInst::Icmp { dest: 7, op: IrCmpOp::Le, lhs: num(3), rhs: num(3) },
            arith(8, IrArithOp::Sub, local(9), num(0)),
            IrInst::Br { cond: num(0), then_bb: 1, else_bb: 2 },
        ],
    )]);
    assert!(ConstFold.run(&mut f));
    let copy = |d: usize, v: IrOperand| arith(d, IrArithOp::Add, v, num(0));
    let expected = vec![
        copy(0, num(42)),
        copy(1, num(3)),
        copy(2, num(-1)),
        copy(3, num(i32::MIN)),
        copy(4, local(9)),
        copy(5, num(0)),
        copy(6, local(9)),
        copy(7, num(1)),
        arith(8, IrArithOp::Sub, local(9), num(0)),
        IrInst::Jump { target: 2 },
    ];
    assert_eq!(shown(&f.blocks[0].instrs), shown(&expected));
}

#[test]
fn elimination_removes_what_nothing_uses() {
    let mut f = func(vec![block(
        0,
        vec![
            arith(0, IrArithOp::Add, num(1), num(2)),
            arith(1, IrArithOp::Add, num(3), num(4)),
            IrInst::Call { dest: Some(2), func: 0, args: vec![] },
            ret(local(1)),
        ],
    )]);
    assert!(DeadCodeElim.run(&mut f));
    let expected = vec![
        arith(1, IrArithOp::Add, num(3), num(4)),
        IrInst::Call { dest: Some(2), func: 0, args: vec![] },
        ret(local(1)),
    ];
    assert_eq!(shown(&f.blocks[0].instrs), shown(&expected));
    assert!(!DeadCodeElim.run(&mut f));
}

#[test]
fn numbering_computes_an_expression_once() {
    let mut f = func(vec![block(
        0,
        vec![
            arith(0, IrArithOp::Add, local(8), local(9)),
            arith(1, IrArithOp::Add, local(8), local(9)),
            arith(2, IrArithOp::Mul, local(1), local(1)),
            arith(3, IrArithOp::Mul, local(0), local(0)),
            ret(local(3)),
        ],
    )]);
    assert!(GVN.run(&mut f));
    let expected = vec![
        arith(0, IrArithOp::Add, local(8), local(9)),
        arith(2, IrArithOp::Mul, local(0), local(0)),
        ret(local(2)),
    ];
    assert_eq!(shown(&f.blocks[0].instrs), shown(&expected));
    assert!(!GVN.run(&mut f));
}

#[test]
fn inlining_puts_a_body_for_a_call() {
    let mut p = IrProgram::new();
    let callee = p.intern_func("one".to_string());
    let main = p.intern_func("main".to_string());
    let mut one = func(vec![block(0, vec![ret(num(1))])]);
    one.name = callee;
    let mut f = func(vec![block(
        1,
        vec![IrInst::Call { dest: Some(5), func: callee, args: vec![] }, ret(local(5))],
    )]);
    f.name = main;
    p.funcs.push(one);
    p.funcs.push(f);
    assert!(Inline::new().run(&mut p));
    let expected = vec![arith(5, IrArithOp::Add, num(1), num(0)), ret(local(5))];
    assert_eq!(shown(&p.funcs[1].blocks[0].instrs), shown(&expected));
    assert!(!Inline::with_limit(0).run(&mut p));
}

#[test]
fn inlining_puts_arguments_for_parameters() {
    let mut p = IrProgram::new();
    let callee = p.intern_func("same".to_string());
    let main = p.intern_func("main".to_string());
    let mut same = func(vec![block(0, vec![ret(local(5))])]);
    same.name = callee;
    same.params = vec![(5, IrType::I32)];
    let mut f = func(vec![block(
        1,
        vec![IrInst::Call { dest: Some(9), func: callee, args: vec![num(7)] }, ret(local(9))],
    )]);
    f.name = main;
    p.funcs.push(same);
    p.funcs.push(f);
    assert!(Inline::new().run(&mut p));
    let expected = vec![arith(9, IrArithOp::Add, num(7), num(0)), ret(local(9))];
    assert_eq!(shown(&p.funcs[1].blocks[0].instrs), shown(&expected));
}

#[test]
fn inlined_bodies_have_values_and_variables_of_their_own() {
    let mut p = IrProgram::new();
    let n = p.intern_global("n".to_string());
    let v = p.intern_global("v".to_string());
    let callee = p.intern_func("twice".to_string());
    let main = p.intern_func("main".to_string());
    let mut twice = func(vec![block(
        0,
        vec![
            IrInst::Alloc { dest: v, ty: IrType::I32 },
            IrInst::Store { value: global(n), ptr: global(v) },
            IrInst::Load { dest: 0, src: global(v) },
            arith(1, IrArithOp::Add, local(0), local(0)),
            ret(local(1)),
        ],
    )]);
    twice.name = callee;
    twice.params = vec![(n, IrType::I32)];
    let call = |d: usize, a: IrOperand| IrInst::Call { dest: Some(d), func: callee, args: vec![a] };
    let mut f = func(vec![block(1, vec![call(0, num(3)), call(1, local(0)), ret(local(1))])]);
    f.name = main;
    p.funcs.push(twice);
    p.funcs.push(f);
    assert!(Inline::new().run(&mut p));
    assert_eq!(p.global_names, vec!["@n", "@v", "@v_in2", "@v_in3"]);
    let expected = vec![
        IrInst::Alloc { dest: 2, ty: IrType::I32 },
        IrInst::Store { value: num(3), ptr: global(2) },
        IrInst::Load { dest: 1000, src: global(2) },
        arith(1001, IrArithOp::Add, local(1000), local(1000)),
        arith(0, IrArithOp::Add, local(1001), num(0)),
        IrInst::Alloc { dest: 3, ty: IrType::I32 },
        IrInst::Store { value: local(0), ptr: global(3) },
        IrInst::Load { dest: 1002, src: global(3) },
        arith(1003, IrArithOp::Add, local(1002), local(1002)),
        arith(1, IrArithOp::Add, local(1003), num(0)),
        ret(local(1)),
    ];
    assert_eq!(shown(&p.funcs[1].blocks[0].instrs), shown(&expected));
}

#[test]
fn the_manager_runs_passes_to_a_fixed_point() {
    let mut p = IrProgram::new();
    p.funcs.push(func(vec![block(
        0,
        vec![
            arith(0, IrArithOp::Add, num(1), num(2)),
            arith(1, IrArithOp::Add, num(1), num(2)),
            ret(local(1)),
        ],
    )]));
    let mut pm: PassManager<StandardPass, Inline> = PassManager::new();
    pm.add_func_pass(StandardPass::ConstFold);
    pm.add_func_pass(StandardPass::DeadCodeElim);
    pm.add_func_pass(StandardPass::Gvn);
    pm.run(&mut p);
    let expected = vec![arith(1, IrArithOp::Add, num(3), num(0)), ret(local(1))];
    assert_eq!(shown(&p.funcs[0].blocks[0].instrs), shown(&expected));
}

#[test]
fn promotion_with_one_value() {
    let mut f = func(vec![
        block(
            0,
            vec![
                IrInst::Alloc { dest: 3, ty: IrType::I32 },
                IrInst::Store { value: num(7), ptr: global(3) },
                IrInst::Jump { target: 1 },
            ],
        ),
        block(1, vec![IrInst::Load { dest: 0, src: global(3) }, ret(local(0))]),
    ]);
    assert!(mem2reg(&mut f));
    assert_eq!(shown(&f.blocks[0].instrs), shown(&vec![IrInst::Jump { target: 1 }]));
    assert_eq!(
        shown(&f.blocks[1].instrs),
        shown(&vec![arith(0, IrArithOp::Add, num(7), num(0)), ret(local(0))])
    );
}

#[test]
fn promotion_places_phis_and_lowering_removes_them() {
    let mut f = func(vec![
        block(
            0,
            vec![
                IrInst::Alloc { dest: 3, ty: IrType::I32 },
                IrInst::Store { value: num(1), ptr: global(3) },
                IrInst::Br { cond: local(9), then_bb: 1, else_bb: 2 },
            ],
        ),
        block(
            1,
            vec![
                IrInst::Store { value: num(2), ptr: global(3) },
                IrInst::Jump { target: 2 },
            ],
        ),
        block(2, vec![IrInst::Load { dest: 0, src: global(3) }, ret(local(0))]),
    ]);
    assert!(mem2reg(&mut f));
    let has_phi = |f: &IrFunc| {
        f.blocks.iter().any(|b| b.instrs.iter().any(|i| matches!(i, IrInst::Phi { .. })))
    };
    assert!(has_phi(&f));
    match &f.blocks[2].instrs[0] {
        IrInst::Phi { dest, incoming } => {
            assert_eq!(*dest, 1000);
            assert_eq!(incoming, &vec![(num(1), 0), (num(2), 1)]);
        }
        other => panic!("not a phi: {other:?}"),
    }
    lower_phis(&mut f);
    assert!(!has_phi(&f));
    assert_eq!(
        shown(&f.blocks[1].instrs),
        shown(&vec![arith(1000, IrArithOp::Add, num(2), num(0)), IrInst::Jump { target: 2 }])
    );
}

#[test]
fn phis_that_exchange_values_are_lowered_at_once() {
    let phi = |dest: usize, a: i32, b: usize| IrInst::Phi {
        dest,
        incoming: vec![(num(a), 0), (local(b), 1)],
    };
    let mut f = func(vec![
        block(0, vec![IrInst::Jump { target: 1 }]),
        block(1, vec![phi(0, 1, 1), phi(1, 2, 0), IrInst::Jump { target: 1 }]),
    ]);
    lower_phis(&mut f);
    let expected = vec![
        arith(1001, IrArithOp::Add, local(0), num(0)),
        arith(0, IrArithOp::Add, local(1), num(0)),
        arith(1, IrArithOp::Add, local(1001), num(0)),
        IrInst::Jump { target: 1 },
    ];
    assert_eq!(shown(&f.blocks[1].instrs), shown(&expected));
}

#[test]
fn a_repeated_value_that_another_block_uses_stays() {
    let mut f = func(vec![
        block(
            0,
            vec![
                arith(0, IrArithOp::Add, local(8), local(9)),
                arith(1, IrArithOp::Add, local(8), local(9)),
                IrInst::Jump { target: 1 },
            ],
        ),
        block(1, vec![ret(local(1))]),
    ]);
    GVN.run(&mut f);
    assert_eq!(f.blocks[0].instrs.len(), 3);
}

use compiler::ir::{
    IrArithOp, IrBlock, IrFunc, IrFuncDecl, IrInst, IrOperand, IrProgram, IrType,
};
use compiler::ir_to_koopa::emit_koopa;
use compiler::ssa::mem2reg;

#[test]
fn simple_program() {
    let mut prog = IrProgram::new();
    let main_func = prog.intern_func("main".to_string());
    let getint_func = prog.intern_func("getint".to_string());

    prog.func_decls.push(IrFuncDecl {
        name: getint_func,
        param_types: vec![],
        ret_type: IrType::I32,
    });

    let entry = prog.intern_block("%entry".to_string());
    let t0 = prog.intern_local("%0".to_string());
    let t1 = prog.intern_local("%1".to_string());
    let t2 = prog.intern_local("%2".to_string());

    prog.funcs.push(IrFunc {
        name: main_func,
        params: vec![],
        ret_type: IrType::I32,
        allocas: vec![],
        blocks: vec![IrBlock {
            label: entry,
            instrs: vec![
                IrInst::Call { dest: Some(t0), func: getint_func, args: vec![] },
                IrInst::Call { dest: Some(t1), func: getint_func, args: vec![] },
                IrInst::Arith {
                    dest: t2,
                    op: IrArithOp::Add,
                    lhs: IrOperand::Local(t0),
                    rhs: IrOperand::Local(t1),
                },
                IrInst::Ret { value: Some(IrOperand::Local(t2)) },
            ],
            preds: vec![],
        }],
    });

    let out = emit_koopa(&prog);
    let expected = "decl @getint(): i32\nfun @main(): i32 {\n%entry:\n  %0 = call @getint()\n  %1 = call @getint()\n  %2 = add %0, %1\n  ret %2\n}\n";
    assert_eq!(out, expected);
}

#[test]
fn mem2reg_simple() {
    let mut func = IrFunc {
        name: 0,
        params: vec![],
        ret_type: IrType::I32,
        allocas: vec![],
        blocks: vec![IrBlock {
            label: 0,
            preds: vec![],
            instrs: vec![
                IrInst::Alloc { dest: 0, ty: IrType::I32 },
                IrInst::Store { value: IrOperand::Int(42), ptr: IrOperand::Global(0) },
                IrInst::Load { dest: 10, src: IrOperand::Global(0) },
                IrInst::Ret { value: Some(IrOperand::Local(10)) },
            ],
        }],
    };
    assert!(mem2reg(&mut func));
    assert!(!func.blocks[0].instrs.iter().any(|i| matches!(i, IrInst::Alloc { .. })));
}

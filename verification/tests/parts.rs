use compiler::ast::{BinaryOp, UnaryOp};
use compiler::cli::CliArgs;
use compiler::codegen::{is_lib_func, lib_func_ret_type};
use compiler::eval::{eval_binary, eval_unary};
use compiler::frame::{compute_frame, size_of_type};
use compiler::ir::{IrArithOp, IrBlock, IrFunc, IrInst, IrOperand, IrProgram, IrType};
use compiler::ir_builder::IrBuilder;
use compiler::ir_to_koopa::is_named;
use compiler::ir_to_riscv::is_ready;
use compiler::lexer::{tokenize, Token, TokenKind};
use compiler::names::NameMap;
use compiler::parser::parse;
use compiler::reg_alloc::RegTracker;
use compiler::scopes::Scopes;
use compiler::text::{dec_i32, dec_u64, find_string, join_strings};
use compiler::OutputMode;

fn words(args: &[&str]) -> Vec<String> {
    args.iter().map(|s| s.to_string()).collect()
}

#[test]
fn the_command_line() {
    let cli = CliArgs::parse(&words(&["compiler", "-riscv", "in.sy", "-o", "out.s"])).unwrap();
    assert_eq!(cli.mode, OutputMode::Riscv);
    assert_eq!(cli.input, "in.sy");
    assert_eq!(cli.output, "out.s");
    let cli = CliArgs::parse(&words(&["compiler", "-koopair", "a", "-o", "b"])).unwrap();
    assert_eq!(cli.mode, OutputMode::KoopaIr);
    let usage = "usage: compiler (-koopa|-koopair|-riscv) <input> -o <output>";
    assert_eq!(CliArgs::parse(&words(&["compiler", "-koopa", "a"])).unwrap_err(), usage);
    assert_eq!(CliArgs::parse(&words(&["compiler", "-x", "a", "-o", "b"])).unwrap_err(), usage);
    assert_eq!(CliArgs::parse(&words(&["compiler", "-koopa", "a", "-p", "b"])).unwrap_err(), usage);
}

#[test]
fn numbers_are_written_in_decimal() {
    assert_eq!(dec_u64(0), "0");
    assert_eq!(dec_u64(u64::MAX), "18446744073709551615");
    assert_eq!(dec_i32(i32::MIN), "-2147483648");
    assert_eq!(dec_i32(107), "107");
}

#[test]
fn texts_are_joined_and_found() {
    let names = words(&["a", "b", "a"]);
    assert_eq!(join_strings(&names, ", "), "a, b, a");
    assert_eq!(join_strings(&vec![], ", "), "");
    assert_eq!(find_string(&names, "a"), Some(0));
    assert_eq!(find_string(&names, "c"), None);
}

#[test]
fn operators_are_evaluated() {
    assert_eq!(eval_unary(UnaryOp::Minus, i32::MIN), i32::MIN);
    assert_eq!(eval_unary(UnaryOp::Not, 0), 1);
    assert_eq!(eval_binary(BinaryOp::Add, i32::MAX, 1), Some(i32::MIN));
    assert_eq!(eval_binary(BinaryOp::Div, -7, 2), Some(-3));
    assert_eq!(eval_binary(BinaryOp::Rem, -7, 2), Some(-1));
    assert_eq!(eval_binary(BinaryOp::Div, 1, 0), None);
    assert_eq!(eval_binary(BinaryOp::Div, i32::MIN, -1), None);
    assert_eq!(eval_binary(BinaryOp::And, 2, 3), Some(1));
    assert_eq!(eval_binary(BinaryOp::Or, 0, 0), Some(0));
}

#[test]
fn later_bindings_hide_earlier_ones() {
    let mut m: NameMap<usize> = NameMap::new();
    m.insert("x".to_string(), 1);
    m.insert("x".to_string(), 2);
    m.insert("y".to_string(), 3);
    assert_eq!(m.get("x"), Some(&2));
    assert_eq!(m.remove("x"), Some(2));
    assert!(!m.contains_key("x"));
    assert_eq!(m.get("y"), Some(&3));
    assert_eq!(m.remove("z"), None);
}

#[test]
fn scopes_end() {
    let mut s: Scopes<usize> = Scopes::new();
    s.bind_global("x".to_string(), 1);
    s.bind("x".to_string(), 2);
    s.enter();
    assert!(!s.declared("x"));
    s.bind("x".to_string(), 3);
    assert_eq!(s.lookup("x"), Some(&3));
    s.exit();
    assert_eq!(s.lookup("x"), Some(&2));
    s.restart();
    assert_eq!(s.lookup("x"), Some(&1));
    assert_eq!(s.lookup("y"), None);
}

#[test]
fn the_library_is_known_by_name() {
    assert!(is_lib_func("getint"));
    assert!(!is_lib_func("main"));
    assert!(lib_func_ret_type("f").is_none());
}

#[test]
fn global_names_are_interned_once() {
    let mut p = IrProgram::new();
    assert_eq!(p.intern_global("a".to_string()), 0);
    assert_eq!(p.intern_global("b".to_string()), 1);
    assert_eq!(p.intern_global("@a".to_string()), 0);
    assert_eq!(p.global_name(1), "@b");
}

#[test]
fn the_builder_collects_blocks() {
    let mut b = IrBuilder::new(0, vec![], IrType::I32, 0, 0, 0, 1);
    let x = b.intern_global("x".to_string());
    b.add_pending_alloca(x, IrType::I32);
    b.emit_store(IrOperand::Int(1), IrOperand::Global(x));
    let next = b.alloc_label();
    b.emit_jump(next);
    assert!(b.is_terminated());
    b.start_block(next);
    let v = b.emit_load(IrOperand::Global(x));
    b.emit_ret(Some(v));
    let (f, meta) = b.build();
    assert_eq!(f.blocks.len(), 2);
    assert!(matches!(f.blocks[0].instrs[0], IrInst::Alloc { .. }));
    assert!(matches!(f.blocks[0].instrs[2], IrInst::Jump { target: 1 }));
    assert_eq!(meta.block_names, words(&["%entry", "%label_1"]));
    assert_eq!(meta.local_names, words(&["%0"]));
    assert_eq!(meta.global_names, words(&["@x"]));
}

#[test]
fn operands_without_a_name_are_shown_by_index() {
    let names = words(&["%a"]);
    assert_eq!(IrOperand::Local(0).display(&names, &[]), "%a");
    assert_eq!(IrOperand::Local(3).display(&names, &[]), "%?3");
    assert_eq!(IrOperand::Global(2).display(&names, &[]), "@?2");
    assert_eq!(IrOperand::Int(-4).display(&names, &[]), "-4");
    assert_eq!(IrOperand::Undef.display(&names, &[]), "undef");
}

fn one_block(instrs: Vec<IrInst>) -> IrFunc {
    IrFunc {
        name: 0,
        params: vec![(0, IrType::I32)],
        ret_type: IrType::I32,
        allocas: vec![],
        blocks: vec![IrBlock { label: 0, instrs, preds: vec![] }],
    }
}

#[test]
fn frames_hold_variables_then_values() {
    let row = IrType::Array(Box::new(IrType::I32), 3);
    assert_eq!(size_of_type(&row), Some(12));
    let f = one_block(vec![
        IrInst::Alloc { dest: 5, ty: row },
        IrInst::Load { dest: 0, src: IrOperand::Global(9) },
        IrInst::Call { dest: Some(1), func: 0, args: vec![IrOperand::Local(0)] },
        IrInst::Ret { value: Some(IrOperand::Local(1)) },
    ]);
    let frame = compute_frame(&f).unwrap();
    assert_eq!(frame.vars.get(&5), Some(&0));
    assert_eq!(frame.locals.get(&0), Some(&12));
    assert_eq!(frame.locals.get(&1), Some(&16));
    assert_eq!(frame.args, 20);
    assert_eq!(frame.size % 16, 0);
    assert_eq!(frame.ra, frame.size - 4);
    assert_eq!(frame.regs.get(&0), Some(&0));
}

#[test]
fn programs_are_checked_before_they_are_written() {
    let mut p = IrProgram::new();
    p.funcs.push(one_block(vec![IrInst::Jump { target: 7 }]));
    assert!(!is_named(&p));
    assert!(!is_ready(&p));
}

#[test]
fn registers_are_given_and_taken_back() {
    let mut t = RegTracker::new();
    let (r0, none) = t.alloc_reg();
    assert!(none.is_none());
    assert_eq!(t.set_dirty(4, r0.clone()), None);
    assert_eq!(t.get(4), Some(r0.clone()));
    assert!(t.is_dirty(4));
    assert!(t.reg_in_use(r0.as_str()));
    assert_eq!(t.local_in_reg(r0.as_str()), Some(4));
    let (r1, _) = t.alloc_reg();
    assert_ne!(r0, r1);
    t.mark_clean(4);
    assert!(!t.is_dirty(4));
    assert_eq!(t.evict(4), Some(r0.clone()));
    assert_eq!(t.get(4), None);
    assert_eq!(t.evict_reg(r0.as_str()), None);
    t.set_dirty(5, r1.clone());
    assert_eq!(t.flush_dirty(), vec![(5, r1)]);
    t.clear();
    assert_eq!(t.get(5), None);
}

#[test]
fn a_cleared_tracker_knows_nothing_of_a_block() {
    let mut t = RegTracker::new();
    let one = |dest: usize| IrInst::Arith {
        dest,
        op: IrArithOp::Add,
        lhs: IrOperand::Int(1),
        rhs: IrOperand::Int(2),
    };
    let block = IrBlock {
        label: 0,
        instrs: vec![one(1), one(2), IrInst::Ret { value: Some(IrOperand::Local(1)) }],
        preds: vec![],
    };
    t.build_intervals(&block);
    assert!(t.pressure() > 0);
    t.clear();
    assert_eq!(t.pressure(), 0);
    assert_eq!(t.alloc_reg().0, "a0");
}

#[test]
fn registers_of_dead_values_are_free_again() {
    let mut t = RegTracker::new();
    let block = IrBlock {
        label: 0,
        instrs: vec![
            IrInst::Arith { dest: 1, op: IrArithOp::Add, lhs: IrOperand::Int(1), rhs: IrOperand::Int(2) },
            IrInst::Arith { dest: 2, op: IrArithOp::Add, lhs: IrOperand::Local(1), rhs: IrOperand::Int(2) },
            IrInst::Ret { value: Some(IrOperand::Local(2)) },
        ],
        preds: vec![],
    };
    t.build_intervals(&block);
    let (r, _) = t.alloc_reg();
    t.set_dirty(1, r.clone());
    t.advance(1);
    assert_eq!(t.get(1), Some(r.clone()));
    t.advance(2);
    assert_eq!(t.get(1), None);
    assert!(!t.reg_in_use(r.as_str()));
}

#[test]
fn tokens_are_in_order_and_end() {
    let tokens = tokenize("int a1_b = 0x1F; // end").unwrap();
    assert!(tokens.windows(2).all(|w| w[0].position <= w[1].position));
    assert_eq!(tokens.last().unwrap().kind, TokenKind::Eof);
    assert_eq!(tokens[1].kind, TokenKind::Ident("a1_b".to_string()));
    assert_eq!(tokens[3].kind, TokenKind::IntLiteral(31));
}

#[test]
fn tokens_without_an_end_go_on_with_the_last() {
    let mut tokens = tokenize("int main() { return 1; }").unwrap();
    tokens.pop();
    assert_eq!(
        parse(tokens).unwrap_err().text(),
        "compile error at byte 23: expected function definition or declaration"
    );
    let mut tokens = tokenize("int main() { while (1) { return 1;").unwrap();
    tokens.pop();
    tokens.push(Token { kind: TokenKind::RBrace, position: 40 });
    assert_eq!(
        parse(tokens).unwrap_err().text(),
        "compile error at byte 40: expected function definition or declaration"
    );
}

#[test]
fn temporaries_are_numbered_from_the_base_on() {
    let mut b = IrBuilder::new(0, vec![], IrType::I32, 7, 0, 0, 1);
    let indices: Vec<usize> = (0..3).map(|_| b.alloc_tmp()).collect();
    assert_eq!(indices, vec![7, 8, 9]);
    assert!(!b.is_terminated());
    let (f, meta) = b.build();
    assert_eq!(f.blocks.len(), 1);
    assert_eq!(meta.local_names, words(&["%0", "%1", "%2"]));
    assert_eq!(meta.block_names, words(&["%entry"]));
    assert!(meta.global_names.is_empty());
    assert!(meta.func_names.is_empty());
}

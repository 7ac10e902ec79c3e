use compiler::ast_to_ir::AstToIr;
use compiler::codegen::compile_to_ir;
use compiler::ir::{IrArithOp, IrCmpOp, IrFunc, IrInst, IrOperand, IrProgram};
use compiler::lexer::tokenize;
use compiler::opt::const_fold::ConstFold;
use compiler::opt::dce::DeadCodeElim;
use compiler::opt::gvn::GVN;
use compiler::opt::inline::Inline;
use compiler::opt::{IrFuncPass, IrProgramPass};
use compiler::parser::parse;
use compiler::ssa::{lower_phis, mem2reg};
use std::collections::HashMap;

/// What a function returns, and the calls of library functions that it makes.
type Outcome = (Option<i32>, Vec<(String, Vec<i32>)>);

fn translated(source: &str) -> IrProgram {
    AstToIr::new().gen_program(&parse(tokenize(source).unwrap()).unwrap()).unwrap()
}

/// The value of a parameter with an index.
fn parameter(index: usize) -> i32 {
    10_000 * index as i32 + 7
}

/// Carries out a function; variables and the memory start at zero, and a called function answers with
/// the sum of its arguments.
fn carried_out(program: &IrProgram, f: &IrFunc) -> Outcome {
    let mut locals: HashMap<usize, i32> = HashMap::new();
    let mut vars: HashMap<usize, i32> = HashMap::new();
    let mut memory: HashMap<i32, i32> = HashMap::new();
    let mut calls = Vec::new();
    let mut at: usize = 0;
    let mut from: usize = f.blocks.len();
    for _ in 0..1000 {
        let value = |op: &IrOperand, locals: &HashMap<usize, i32>| match op {
            IrOperand::Int(n) => *n,
            IrOperand::Local(l) => locals.get(l).copied().unwrap_or(0),
            IrOperand::Global(g) => parameter(*g),
            IrOperand::Undef => 0,
        };
        let mut entered = locals.clone();
        for i in &f.blocks[at].instrs {
            if let IrInst::Phi { dest, incoming } = i {
                for (v, p) in incoming {
                    if *p == from {
                        entered.insert(*dest, value(v, &locals));
                    }
                }
            }
        }
        locals = entered;
        let mut next = None;
        for i in &f.blocks[at].instrs {
            match i {
                IrInst::Load { dest, src: IrOperand::Global(g) } => {
                    locals.insert(*dest, vars.get(g).copied().unwrap_or(0));
                }
                IrInst::Store { value: v, ptr: IrOperand::Global(g) } => {
                    vars.insert(*g, value(v, &locals));
                }
                IrInst::Load { dest, src } => {
                    let v = memory.get(&value(src, &locals)).copied().unwrap_or(0);
                    locals.insert(*dest, v);
                }
                IrInst::Store { value: v, ptr } => {
                    memory.insert(value(ptr, &locals), value(v, &locals));
                }
                IrInst::GetPtr { dest, ptr, index, elem_size }
                | IrInst::GetElemPtr { dest, ptr, index, elem_size } => {
                    let v = value(ptr, &locals) + value(index, &locals) * elem_size;
                    locals.insert(*dest, v);
                }
                IrInst::Arith { dest, op, lhs, rhs } => {
                    let (l, r) = (value(lhs, &locals), value(rhs, &locals));
                    let v = match op {
                        IrArithOp::Add => l.wrapping_add(r),
                        IrArithOp::Sub => l.wrapping_sub(r),
                        IrArithOp::Mul => l.wrapping_mul(r),
                        IrArithOp::Div => l.checked_div(r).unwrap_or(0),
                        IrArithOp::Mod => l.checked_rem(r).unwrap_or(0),
                    };
                    locals.insert(*dest, v);
                }
                IrInst::Icmp { dest, op, lhs, rhs } => {
                    let (l, r) = (value(lhs, &locals), value(rhs, &locals));
                    let v = match op {
                        IrCmpOp::Eq => l == r,
                        IrCmpOp::Ne => l != r,
                        IrCmpOp::Lt => l < r,
                        IrCmpOp::Gt => l > r,
                        IrCmpOp::Le => l <= r,
                        IrCmpOp::Ge => l >= r,
                    };
                    locals.insert(*dest, i32::from(v));
                }
                IrInst::Call { dest, func, args } => {
                    let vals: Vec<i32> = args.iter().map(|a| value(a, &locals)).collect();
                    if let Some(d) = dest {
                        locals.insert(*d, vals.iter().sum());
                    }
                    calls.push((program.func_names[*func].clone(), vals));
                }
                IrInst::Ret { value: v } => {
                    return (v.map(|v| value(&v, &locals)), calls);
                }
                IrInst::Jump { target } => next = Some(*target),
                IrInst::Br { cond, then_bb, else_bb } => {
                    next = Some(if value(cond, &locals) != 0 { *then_bb } else { *else_bb });
                }
                _ => {}
            }
        }
        let label = next.unwrap();
        from = at;
        at = f.blocks.iter().position(|b| b.label == label).unwrap();
    }
    panic!("does not come to an end");
}

fn shown(f: &IrFunc) -> String {
    format!("{:?}", f.blocks)
}

/// Every pass leaves what a function does, alone and one after the other.
fn means_the_same(source: &str, expected: Outcome) {
    let program = translated(source);
    assert_eq!(carried_out(&program, &program.funcs[0]), expected, "translated");
    let passes: Vec<(&str, Box<dyn Fn(&mut IrFunc)>)> = vec![
        ("folding", Box::new(|f: &mut IrFunc| {
            ConstFold.run(f);
        })),
        ("elimination", Box::new(|f: &mut IrFunc| {
            DeadCodeElim.run(f);
        })),
        ("numbering", Box::new(|f: &mut IrFunc| {
            GVN.run(f);
        })),
        ("promotion", Box::new(|f: &mut IrFunc| {
            mem2reg(f);
        })),
        ("promotion and lowering", Box::new(|f: &mut IrFunc| {
            mem2reg(f);
            lower_phis(f);
        })),
    ];
    for (name, pass) in passes {
        let mut p = translated(source);
        pass(&mut p.funcs[0]);
        assert_eq!(carried_out(&p, &p.funcs[0]), expected, "{name}: {}", shown(&p.funcs[0]));
    }
    let all = compile_to_ir(&parse(tokenize(source).unwrap()).unwrap()).unwrap();
    assert_eq!(carried_out(&all, &all.funcs[0]), expected, "all: {}", shown(&all.funcs[0]));
}

fn ends_well(source: &str) {
    for f in &translated(source).funcs {
        assert!(!f.blocks.is_empty());
        for b in &f.blocks {
            let last = b.instrs.len() - 1;
            for (i, inst) in b.instrs.iter().enumerate() {
                let ends = matches!(inst, IrInst::Br { .. } | IrInst::Jump { .. } | IrInst::Ret { .. });
                assert_eq!(ends, i == last, "{b:?}");
            }
        }
    }
}

#[test]
fn a_loop_means_the_same_after_every_pass() {
    means_the_same(
        "int main() { int n = 5; int s = 0; while (n > 0) { s = s + n; n = n - 1; } return s; }",
        (Some(15), vec![]),
    );
}

#[test]
fn exchanged_variables_mean_the_same_after_every_pass() {
    means_the_same(
        "int main() { int a = 1; int b = 2; int i = 0; while (i < 3) { int t = a; a = b; b = t; i = i + 1; } return a * 10 + b; }",
        (Some(21), vec![]),
    );
}

#[test]
fn branches_mean_the_same_after_every_pass() {
    means_the_same(
        "int main() { int x = 3; int y = 0; if (x > 2) { y = 1; if (x == 3) y = y + 4; } else y = 9; return y * 2 + 1; }",
        (Some(11), vec![]),
    );
}

#[test]
fn loops_that_are_left_early_mean_the_same_after_every_pass() {
    means_the_same(
        "int main() { int i = 0; int s = 0; while (1) { i = i + 1; if (i > 6) break; if (i % 2) continue; s = s + i; } return s; }",
        (Some(12), vec![]),
    );
}

#[test]
fn expressions_of_one_block_mean_the_same_after_every_pass() {
    means_the_same(
        "int main() { int a = 7; int b = -3; const int c = 2 * 3; return (a + b) * c - !a + a / b % 5; }",
        (Some(22), vec![]),
    );
}

#[test]
fn the_second_operand_counts_only_if_the_first_does_not_decide() {
    let call = |n: i32| (String::from("f"), vec![n]);
    means_the_same("int main() { return f(0) && f(1); }", (Some(0), vec![call(0)]));
    means_the_same("int main() { return f(2) && f(3); }", (Some(1), vec![call(2), call(3)]));
    means_the_same("int main() { return f(2) && f(0); }", (Some(0), vec![call(2), call(0)]));
    means_the_same("int main() { return f(4) || f(5); }", (Some(1), vec![call(4)]));
    means_the_same("int main() { return f(0) || f(6); }", (Some(1), vec![call(0), call(6)]));
    means_the_same(
        "int main() { return 0 || f(1) && (f(0) || f(7)); }",
        (Some(1), vec![call(1), call(0), call(7)]),
    );
}

#[test]
fn blocks_end_in_one_branch_or_return() {
    ends_well("int main() { if (1) return 1; else return 2; return 3; }");
    ends_well("int main() { int i = 0; while (i < 3) { if (i) { continue; } else break; i = 1; } }");
    ends_well("void f(int a[]) { a[0] = a[1] && a[2] || 1; } int main() { return f(0); }");
}

#[test]
fn constants_have_the_values_of_run_time() {
    for e in ["-7 / 2", "-7 % 2", "!5 + !0", "3 < 4 && 0 || 2", "2147483647 + 1", "1 - -8 * 3"] {
        let constant = translated(&format!("int main() {{ const int c = {e}; return c; }}"));
        let run_time = translated(&format!("int main() {{ return {e}; }}"));
        assert_eq!(
            carried_out(&constant, &constant.funcs[0]),
            carried_out(&run_time, &run_time.funcs[0]),
            "{e}"
        );
    }
}

#[test]
fn names_stand_for_the_innermost_declaration() {
    means_the_same(
        "int main() { int x = 1; { int x = x + 1; { int x = x * 5; x = x + 1; f(x); } f(x); x = 9; } f(x); return x; }",
        (
            Some(1),
            vec![
                (String::from("f"), vec![11]),
                (String::from("f"), vec![2]),
                (String::from("f"), vec![1]),
            ],
        ),
    );
    means_the_same(
        "int main() { int i = 0; int s = 0; while (i < 3) { int t = i; { const int i = 10; s = s + i + t; } i = i + 1; } return s; }",
        (Some(33), vec![]),
    );
}

#[test]
fn functions_return_what_their_bodies_say() {
    let source = "int f(int a, int b) { { int a = b; b = a + 1; } a = a - b; return a * 2; }";
    let program = translated(source);
    let given: Vec<i32> = program.funcs[0].params.iter().map(|p| parameter(p.0)).collect();
    assert_eq!(given.len(), 2);
    assert_ne!(given[0], given[1]);
    means_the_same(source, (Some((given[0] - given[1] - 1) * 2), vec![]));
    means_the_same("int f() { int x = 5; x = x + 1; }", (Some(0), vec![]));
    means_the_same("void f() { int x = 5; g(x); }", (None, vec![(String::from("g"), vec![5])]));
    means_the_same("void f(int x) { if (x) return; g(x); }", (None, vec![]));
}

#[test]
fn a_value_of_another_block_means_the_same_after_every_pass() {
    means_the_same(
        "int main() { int x = 1 + 2; int y = 1 + 2; if (getint()) { return y; } return x; }",
        (Some(3), vec![("getint".to_string(), vec![])]),
    );
}

#[test]
fn an_inlined_call_computes_what_the_function_returns() {
    let mut p = translated(
        "int f(int n) { int m = n * n; return m + 1; } int main() { int a = f(3); return a + f(4); }",
    );
    let name = p.funcs[0].name;
    let (names, funcs) = (&p.func_names, &mut p.funcs);
    for i in &mut funcs[1].blocks[0].instrs {
        if let IrInst::Call { func, .. } = i {
            if names[*func] == names[name] {
                *func = name;
            }
        }
    }
    let before = p.global_names.len();
    assert!(Inline::new().run(&mut p));
    assert_eq!(p.global_names.len(), before + 4);
    assert_eq!(carried_out(&p, &p.funcs[1]), (Some(27), vec![]), "{}", shown(&p.funcs[1]));
    let mut f = p.funcs[1].clone();
    mem2reg(&mut f);
    assert_eq!(carried_out(&p, &f), (Some(27), vec![]), "{}", shown(&f));
}

#[test]
fn elements_are_read_and_written_as_the_source_says() {
    means_the_same(
        "int main() { int a[4]; int i = 0; while (i < 4) { a[i] = i * i; i = i + 1; } return a[3] - a[1] + a[2]; }",
        (Some(12), vec![]),
    );
    means_the_same(
        "int main() { int b[2][3]; b[1][2] = 5; b[0][2] = 7; b[1][0] = b[0][2] + 1; return b[1][0] * 100 + b[1][2] * 10 + b[0][2]; }",
        (Some(857), vec![]),
    );
    means_the_same(
        "int main() { int a[3]; a[g()] = f(1); return a[0]; }",
        (Some(1), vec![(String::from("f"), vec![1]), (String::from("g"), vec![])]),
    );
    means_the_same(
        "int f(int p[], int q[][2]) { p[1] = 4; q[1][1] = p[1] + 1; return q[1][1] * 10 + p[1]; }",
        (Some(54), vec![]),
    );
}

#[test]
fn initializers_are_computed() {
    means_the_same(
        "int main() { const int n = 3; int a[4] = {-1, n * 2, f(5)}; return a[0] * 100 + a[1] * 10 + a[2] + a[3]; }",
        (Some(-35), vec![(String::from("f"), vec![5])]),
    );
    means_the_same(
        "int main() { int x = 4; int b[2][2] = {{x}, {x + 1, x + 2}}; return b[0][0] * 1000 + b[0][1] * 100 + b[1][0] * 10 + b[1][1]; }",
        (Some(4056), vec![]),
    );
    means_the_same(
        "int main() { const int c[2] = {-2, 8}; return c[0] + c[1]; }",
        (Some(6), vec![]),
    );
}

#[test]
fn a_compiled_function_returns_what_its_body_says() {
    let source = "int sum(int a[], int n) { int s = 0; int i = 0; while (i < n) { if (a[i] > 2 && a[i] < 9) { s = s + a[i]; } i = i + 1; } return s; } \
                  int main() { int a[3] = {2, 4, 8}; return sum(a, 3) + a[1]; }";
    let p = compile_to_ir(&parse(tokenize(source).unwrap()).unwrap()).unwrap();
    let main = p.funcs.iter().find(|f| p.func_names[f.name] == "main").unwrap();
    let (returned, calls) = carried_out(&p, main);
    assert_eq!(calls.len(), 1);
    assert_eq!(calls[0].0, "sum");
    assert_eq!(calls[0].1[1], 3);
    assert_eq!(returned, Some(calls[0].1[0] + 3 + 4));
}

/// Whether every way from the entry to block `to` goes through block `through`.
fn dominates(f: &IrFunc, through: usize, to: usize) -> bool {
    let mut seen = vec![false; f.blocks.len()];
    let mut todo = vec![0];
    while let Some(b) = todo.pop() {
        if b == through || seen[b] {
            continue;
        }
        seen[b] = true;
        for i in &f.blocks[b].instrs {
            let targets = match i {
                IrInst::Jump { target } => vec![*target],
                IrInst::Br { then_bb, else_bb, .. } => vec![*then_bb, *else_bb],
                _ => vec![],
            };
            for t in targets {
                todo.push(f.blocks.iter().position(|b| b.label == t).unwrap());
            }
        }
    }
    !seen[to]
}

#[test]
fn values_are_computed_on_every_way_to_their_uses() {
    let source = "int main() { int a[2] = {1, 2}; int i = 0; \
                  while (i < 9 && a[i % 2] > 0 || f(i)) { if (i == 5) { break; } if (i > 7 || g()) continue; i = i + (a[0] && i) * 2; } \
                  return a[i % 2] + (i && a[1]); }";
    for f in &translated(source).funcs {
        for b in 1..f.blocks.len() {
            assert!(!dominates(f, f.blocks.len(), b), "block {b} cannot be reached");
        }
        let mut defined: HashMap<usize, (usize, usize)> = HashMap::new();
        for (b, block) in f.blocks.iter().enumerate() {
            for (i, inst) in block.instrs.iter().enumerate() {
                if let IrInst::Alloc { .. } = inst {
                    continue;
                }
                if let Some(d) = inst.dest() {
                    assert!(defined.insert(d, (b, i)).is_none());
                }
            }
        }
        for (c, block) in f.blocks.iter().enumerate() {
            for (i, inst) in block.instrs.iter().enumerate() {
                for op in inst.operands() {
                    if let IrOperand::Local(l) = op {
                        let (b, j) = defined[&l];
                        assert!((b == c && j < i) || (b != c && dominates(f, b, c)), "{inst:?}");
                    }
                }
            }
        }
    }
}

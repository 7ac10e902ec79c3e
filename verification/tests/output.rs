use compiler::{compile_source, OutputMode};

fn koopa(source: &str) -> String {
    compile_source(source, OutputMode::Koopa).unwrap()
}

fn riscv(source: &str) -> String {
    compile_source(source, OutputMode::Riscv).unwrap()
}

#[test]
fn both_names_of_a_form_give_the_same() {
    let source = "int g = 3; int f(int n) { return n + g; } int main() { return f(getint()); }";
    assert_eq!(koopa(source), compile_source(source, OutputMode::KoopaIr).unwrap());
    assert_eq!(riscv(source), compile_source(source, OutputMode::RiscvIr).unwrap());
}

#[test]
fn globals_are_written_with_their_values() {
    let out = koopa("int a = 5; int b[2][2] = {{1}, {2, 3}}; int c[3]; int main() { return 0; }");
    assert!(out.contains("global @a = alloc i32, 5\n"), "{out}");
    assert!(out.contains("global @b = alloc [[i32, 2], 2], {{1, 0}, {2, 3}}\n"), "{out}");
    assert!(out.contains("global @c = alloc [i32, 3], zeroinit\n"), "{out}");
    let code = riscv("int a = 5; int c[3]; int main() { return 0; }");
    assert!(code.starts_with("  .data\na:\n  .word 5\nc:\n  .zero 12\n  .text\n"), "{code}");
}

#[test]
fn variables_of_one_block_are_promoted() {
    let out = koopa("int main() { int x = 42; return x; }");
    assert_eq!(out, "fun @main(): i32 {\n%entry:\n  %0 = add 42, 0\n  ret %0\n}\n");
}

#[test]
fn constant_conditions_become_jumps() {
    let out = koopa("int main() { if (1) { return 2; } return 3; }");
    assert!(!out.contains("  br "), "{out}");
    assert!(out.contains("  jump "), "{out}");
}

#[test]
fn library_functions_are_declared() {
    let out = koopa("int main() { int a[4]; int n = getarray(a); putarray(n, a); return n; }");
    assert!(out.contains("decl @getarray(*i32): i32\n"), "{out}");
    assert!(out.contains("decl @putarray(i32, *i32)\n"), "{out}");
}

#[test]
fn recursive_functions_are_not_inlined() {
    let out = koopa("int f(int n) { return f(n - 1); } int main() { return f(3); }");
    assert!(out.split("fun @main").nth(1).unwrap().contains("call @f"), "{out}");
}

#[test]
fn a_call_of_itself_at_the_end_reuses_the_frame() {
    let source = "int sum(int n, int acc) { if (n == 0) { return acc; } return sum(n - 1, acc + n); } \
                  int main() { return sum(10, 0); }";
    let out = riscv(source);
    let sum = out.split("main:").next().unwrap();
    assert!(sum.contains("  j sum\n"), "{out}");
    assert!(!sum.contains("call sum"), "{out}");
    assert_eq!(out.matches("  call sum\n").count(), 1, "{out}");
}

#[test]
fn a_call_of_itself_that_is_not_the_end_is_a_call() {
    let source = "int fact(int n) { if (n == 0) { return 1; } return n * fact(n - 1); } \
                  int main() { return fact(5); }";
    let out = riscv(source);
    assert!(!out.contains("  j fact\n"), "{out}");
    assert_eq!(out.matches("  call fact\n").count(), 2, "{out}");
}

#[test]
fn a_frame_that_holds_an_array_is_not_reused() {
    let source = "int f(int a[], int n) { int b[2]; b[0] = n; if (n == 0) { return a[0]; } \
                  return f(b, n - 1); } int main() { int c[1]; c[0] = 1; return f(c, 2); }";
    let out = riscv(source);
    assert!(!out.contains("  j f\n"), "{out}");
}

#[test]
fn inline_assembly_is_passed_on() {
    let out = riscv("int main() { asm(\"fence\"); int c = asm(\"rdcycle a0\"); return c; }");
    assert!(out.contains("  fence\n"), "{out}");
    assert!(out.contains("  rdcycle a0\n"), "{out}");
}

#[test]
fn frames_are_aligned() {
    let out = riscv("int main() { putint(1); return 0; }");
    assert!(out.starts_with("  .text\n  .globl main\nmain:\n  addi sp, sp, -32\n  sw ra, 28(sp)\n"), "{out}");
    assert!(out.ends_with("  li a0, 0\n  lw ra, 28(sp)\n  addi sp, sp, 32\n  ret\n"), "{out}");
}

#[test]
fn a_small_function_that_calls_none_has_no_frame() {
    let out = riscv("int main() { return 5; }");
    assert_eq!(out, "  .text\n  .globl main\nmain:\n.L0:\n  li a0, 5\n  ret\n");
    let add = riscv("int add(int a, int b) { return a + b; } int main() { return add(1, 2); }");
    let add = add.split("main:").next().unwrap();
    assert!(!add.contains("sp"), "{add}");
}

#[test]
fn only_a_function_that_calls_keeps_its_return_address() {
    let source = "int f(int n) { int s = 0; while (n > 0) { s = s + n; n = n - 1; } return s; } \
                  int main() { return f(3); }";
    let out = riscv(source);
    let f = out.split("main:").next().unwrap();
    assert!(f.contains("  addi sp, sp, -"), "{f}");
    assert!(!f.contains("ra"), "{f}");
    assert!(out.contains("  sw ra, "), "{out}");
}

#[test]
fn large_offsets_go_through_a_register() {
    let out = riscv("int main() { int a[1000]; a[0] = 1; return a[0]; }");
    assert!(out.contains("  li t0, -"), "{out}");
    assert!(out.contains("  add sp, sp, t0\n"), "{out}");
}

#[test]
fn inline_assembly_may_hold_any_characters() {
    let out = riscv("int main() { asm(\"nop # zur Übung: 汇编 €\"); return 0; }");
    assert!(out.contains("  nop # zur Übung: 汇编 €\n"), "{out}");
}

#[test]
fn initializers_of_globals_are_constants() {
    let out = koopa("const int n = 3; int a[3] = {-1, n * 2}; int b[2] = {1 + 1, f()}; int main() { return 0; }");
    assert!(out.contains("global @a = alloc [i32, 3], {-1, 6, 0}\n"), "{out}");
    assert!(out.contains("global @b = alloc [i32, 2], {2, 0}\n"), "{out}");
}

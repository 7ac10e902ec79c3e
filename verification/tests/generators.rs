use compiler::ast::CompUnit;
use compiler::koopa_gen::KoopaGen;
use compiler::lexer::tokenize;
use compiler::parser::parse;
use compiler::riscv_gen::RiscvGen;

fn tree(source: &str) -> CompUnit {
    parse(tokenize(source).unwrap()).unwrap()
}

fn koopa(source: &str) -> Result<String, String> {
    KoopaGen::new().gen_program(&tree(source)).map_err(|e| e.text())
}

fn riscv(source: &str) -> Result<String, String> {
    RiscvGen::new().gen_program(&tree(source)).map_err(|e| e.text())
}

#[test]
fn koopa_of_an_expression() {
    assert_eq!(
        koopa("int main() { return 1 + 2 * -3; }").unwrap(),
        "fun @main(): i32 {\n%entry:\n  %0 = sub 0, 3\n  %1 = mul 2, %0\n  %2 = add 1, %1\n  ret %2\n}\n"
    );
}

#[test]
fn koopa_numbers_names_from_their_second_use() {
    let out = koopa("int main() { int x = 1; { int x = 2; x = 3; } return x; }").unwrap();
    assert!(out.contains("  @x = alloc i32\n  @x_1 = alloc i32\n"), "{out}");
    assert!(out.contains("  store 3, @x_1\n"), "{out}");
}

#[test]
fn koopa_declares_library_functions_in_arguments() {
    let out = koopa("int main() { putint(getint()); return 0; }").unwrap();
    assert!(out.contains("decl @putint(i32)\n"), "{out}");
    assert!(out.contains("decl @getint(): i32\n"), "{out}");
}

#[test]
fn koopa_of_array_parameters() {
    let out = koopa("int f(int a[][10], int i, int j) { return a[i][j]; } int main() { return 0; }")
        .unwrap();
    assert!(out.contains("getptr @a, "), "{out}");
    assert!(out.contains("getelemptr "), "{out}");
}

#[test]
fn koopa_errors() {
    assert_eq!(koopa("int main() { return x; }"), Err("compile error: undefined identifier 'x'".to_string()));
    assert_eq!(koopa("int main() { break; }"), Err("compile error: 'break' outside of loop".to_string()));
    assert_eq!(
        koopa("int main() { const int a = 1 / 0; return a; }"),
        Err("compile error: invalid constant division".to_string())
    );
}

#[test]
fn riscv_of_an_expression() {
    assert_eq!(
        riscv("int main() { return 1 + 2; }").unwrap(),
        "  .text\n  .globl main\nmain:\n  addi sp, sp, -16\n  sw ra, 12(sp)\n  li a0, 1\n  addi sp, sp, -4\n  sw a0, 0(sp)\n  li a0, 2\n  lw t0, 0(sp)\n  addi sp, sp, 4\n  add a0, t0, a0\n  lw ra, 12(sp)\n  addi sp, sp, 16\n  ret\n"
    );
}

#[test]
fn riscv_of_variables_and_a_loop() {
    assert_eq!(
        riscv("int main() { int i = 0; while (i < 3) { i = i + 1; } return i; }").unwrap(),
        "  .text\n  .globl main\nmain:\n  addi sp, sp, -32\n  sw ra, 28(sp)\n  li a0, 0\n  sw a0, 4(sp)\n  j .L0\n.L0:\n  lw a0, 4(sp)\n  addi sp, sp, -4\n  sw a0, 0(sp)\n  li a0, 3\n  lw t0, 0(sp)\n  addi sp, sp, 4\n  slt a0, t0, a0\n  beqz a0, .L2\n.L1:\n  lw a0, 4(sp)\n  addi sp, sp, -4\n  sw a0, 0(sp)\n  li a0, 1\n  lw t0, 0(sp)\n  addi sp, sp, 4\n  add a0, t0, a0\n  sw a0, 4(sp)\n  j .L0\n.L2:\n  lw a0, 4(sp)\n  lw ra, 28(sp)\n  addi sp, sp, 32\n  ret\n"
    );
}

#[test]
fn riscv_of_globals_and_calls() {
    let out = riscv("int g[2][2] = {{1}, 2}; int f(int a, int b) { return a; } int main() { return f(g[1][0], 3); }")
        .unwrap();
    assert!(
        out.starts_with("  .data\ng:\n  .word 1\n  .word 0\n  .word 2\n  .word 0\n  .text\n"),
        "{out}"
    );
    assert!(
        out.contains("  lw a0, 0(sp)\n  addi sp, sp, 4\n  lw a1, 0(sp)\n  addi sp, sp, 4\n  call f\n"),
        "{out}"
    );
    assert!(out.contains("  la t3, g\n"), "{out}");
}

#[test]
fn riscv_reads_constant_arrays() {
    let out = riscv("const int t[3] = {4, 5, 6}; int main() { const int x = t[1] + 1; return x; }").unwrap();
    assert!(out.contains("  li a0, 6\n"), "{out}");
    assert_eq!(
        riscv("const int t[3] = {4, 5, 6}; int main() { const int x = t[5]; return x; }"),
        Err("compile error: const array index out of bounds: index 5, len 3".to_string())
    );
    assert_eq!(
        riscv("int main() { int y; const int x = y[0]; return x; }"),
        Err("compile error: 'y' is not a const array".to_string())
    );
}

#[test]
fn riscv_computes_what_is_not_constant() {
    let out = riscv("int main() { int a[2] = {1, getint()}; return a[1]; }").unwrap();
    assert!(
        out.contains("  li t0, 1\n  sw t0, 4(sp)\n  li t0, 0\n  sw t0, 8(sp)\n  call getint\n  sw a0, 8(sp)\n"),
        "{out}"
    );
}

#[test]
fn riscv_passes_more_than_eight_arguments_on_the_stack() {
    let out = riscv("int f(int a, int b, int c, int d, int e, int f, int g, int h, int i) { return i; } int main() { return f(1, 2, 3, 4, 5, 6, 7, 8, 9); }").unwrap();
    assert!(out.contains("  call f\n  addi sp, sp, 4\n"), "{out}");
    // Nine slots and the return address make a frame of 64 bytes; the ninth argument is above it.
    assert!(out.contains("  lw t0, 64(sp)\n  sw t0, 36(sp)\n"), "{out}");
}

#[test]
fn riscv_errors() {
    assert_eq!(
        riscv("int main() { int x = {1}; return x; }"),
        Err("compile error: initializer list not allowed in expression context".to_string())
    );
    assert_eq!(riscv("int main() { x = 1; return 0; }"), Err("compile error: undefined variable 'x'".to_string()));
    assert_eq!(riscv("int main() { int x; return x[0]; }"), Err("compile error: 'x' is not an array".to_string()));
    assert_eq!(riscv("int main() { continue; }"), Err("compile error: 'continue' outside of loop".to_string()));
}

#[test]
fn riscv_writes_the_size_of_a_blank_array_as_it_is() {
    let out = riscv("int a[2][3]; int b[-2]; int main() { return 0; }").unwrap();
    assert!(out.contains("a:\n  .zero 24\n"), "{out}");
    assert!(out.contains("b:\n  .zero -8\n"), "{out}");
    assert_eq!(
        riscv("int b[-2] = {1}; int main() { return 0; }").unwrap_err(),
        "compile error: invalid array dimension"
    );
    assert_eq!(
        riscv("int b[-2000000000]; int main() { return 0; }").unwrap_err(),
        "compile error: invalid array dimension"
    );
}

use compiler::{compile_source, CompilerError, OutputMode};

fn message(source: &str) -> String {
    compile_source(source, OutputMode::Koopa).unwrap_err().text()
}

fn in_main(body: &str) -> String {
    message(&format!("int main() {{ {body} }}"))
}

#[test]
fn errors_read_with_and_without_a_position() {
    assert_eq!(CompilerError::new("oops".to_string()).text(), "compile error: oops");
    assert_eq!(CompilerError::at(7, "oops".to_string()).text(), "compile error at byte 7: oops");
}

#[test]
fn lexer_errors() {
    assert_eq!(message("int main() { return 1 & 2; }"), "compile error at byte 22: unexpected '&'");
    assert_eq!(message("int main() { return 1 | 2; }"), "compile error at byte 22: unexpected '|'");
    assert_eq!(
        message("int main() { return 1 $ 2; }"),
        "compile error at byte 22: unexpected character '$'"
    );
    assert_eq!(message("int x; /* x"), "compile error at byte 7: unterminated block comment");
    assert_eq!(
        message("int main() { return 0x; }"),
        "compile error at byte 20: expected hexadecimal digits"
    );
    assert_eq!(
        message("int main() { return 09; }"),
        "compile error at byte 20: invalid octal literal"
    );
    assert_eq!(
        message("int main() { return 99999999999; }"),
        "compile error at byte 20: integer literal out of range"
    );
    assert_eq!(
        message("int main() { asm(\"nop"),
        "compile error at byte 17: unterminated string literal"
    );
}

#[test]
fn parser_errors() {
    assert_eq!(
        message("x"),
        "compile error at byte 0: expected function definition or declaration"
    );
    assert_eq!(
        message("int main() { return +; }"),
        "compile error at byte 21: expected primary expression"
    );
    assert_eq!(message("int 3;"), "compile error at byte 4: expected identifier");
    assert_eq!(
        message("int main() { asm(3); return 0; }"),
        "compile error at byte 17: expected string literal"
    );
    assert_eq!(message("int f(x) { }"), "compile error at byte 6: expected ')'");
    assert_eq!(message("int f(int a, x) { }"), "compile error at byte 13: expected 'int'");
}

#[test]
fn names_must_be_declared_once() {
    assert_eq!(in_main("return x;"), "compile error: undefined identifier 'x'");
    assert_eq!(in_main("x = 1; return 0;"), "compile error: undefined variable 'x'");
    assert_eq!(in_main("int x; int x; return 0;"), "compile error: redeclaration of 'x'");
    assert_eq!(
        in_main("const int x = 1; const int x = 2; return 0;"),
        "compile error: redeclaration of 'x'"
    );
    assert!(compile_source("int main() { int x; { int x; } return 0; }", OutputMode::Koopa).is_ok());
}

#[test]
fn assignments_need_a_place() {
    assert_eq!(
        in_main("const int x = 1; x = 2; return 0;"),
        "compile error: cannot assign to constant 'x'"
    );
    assert_eq!(
        in_main("int a[2]; a = 2; return 0;"),
        "compile error: cannot assign to array 'a' without index"
    );
    assert_eq!(in_main("int x; x[0] = 2; return 0;"), "compile error: 'x' is not an array");
}

#[test]
fn jumps_need_a_loop() {
    assert_eq!(in_main("break;"), "compile error: 'break' outside of loop");
    assert_eq!(in_main("continue;"), "compile error: 'continue' outside of loop");
}

#[test]
fn constants_must_be_constant() {
    assert_eq!(
        in_main("int x; const int y = x; return 0;"),
        "compile error: 'x' is not a compile-time constant"
    );
    assert_eq!(in_main("const int y = 1 / 0; return 0;"), "compile error: div by zero");
    assert_eq!(in_main("const int y = 1 % 0; return 0;"), "compile error: rem by zero");
    assert_eq!(
        in_main("const int y = getint(); return 0;"),
        "compile error: not a compile-time constant"
    );
    assert_eq!(
        in_main("int a[2] = {1, {2}}; int b[0 - 1] = {{1}}; return 0;"),
        "compile error: invalid array dimension"
    );
}

#[test]
fn assembly_has_limits_that_koopa_has_not() {
    let source = "int main() { int a[1000000000]; a[0] = 1; return a[0]; }";
    assert!(compile_source(source, OutputMode::Koopa).is_ok());
    assert_eq!(
        compile_source(source, OutputMode::Riscv).unwrap_err().text(),
        "compile error: program too large"
    );
}

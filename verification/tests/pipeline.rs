use compiler::ast_to_ir::AstToIr;
use compiler::ir_to_koopa::emit_koopa;
use compiler::lexer::{tokenize, TokenKind};
use compiler::parser::parse;
use compiler::{compile_source, CompilerResult, OutputMode};

fn compile_via_ir(source: &str) -> CompilerResult<String> {
    let tokens = tokenize(source)?;
    let ast = parse(tokens)?;
    let ir = AstToIr::new().gen_program(&ast)?;
    Ok(emit_koopa(&ir))
}

#[test]
fn simple_main() {
    let source = "int main() { return 1 + 2 * -3; }";
    let out = compile_via_ir(source).unwrap();
    assert!(out.contains("fun @main(): i32 {"), "missing main header: {out}");
    assert!(out.contains("%0 = sub 0, 3"), "missing sub: {out}");
    assert!(out.contains("%1 = mul 2, %0"), "missing mul: {out}");
    assert!(out.contains("%2 = add 1, %1"), "missing add: {out}");
    assert!(out.contains("ret %2"), "missing ret: {out}");
}

#[test]
fn hex_and_octal() {
    let source = "int main() { return 0x10 + 07; }";
    let out = compile_via_ir(source).unwrap();
    assert!(out.contains("23") || out.contains("add 16, 7"));
}

#[test]
fn var_decl_and_assign() {
    let source = "int main() { int x = 42; return x; }";
    let out = compile_via_ir(source).unwrap();
    assert!(out.contains("alloc i32"), "should have alloc: {out}");
    assert!(out.contains("store 42"), "should store 42: {out}");
    assert!(out.contains("load"), "should load x: {out}");
}

#[test]
fn short_circuit_and() {
    let source = "int main() { int a = 1; int b = 0; return a && b; }";
    let out = compile_via_ir(source).unwrap();
    assert!(out.contains("br"), "should have branch: {out}");
}

#[test]
fn if_stmt() {
    let source = "int main() { int x = 1; if (x) { x = 2; } return x; }";
    let out = compile_via_ir(source).unwrap();
    assert!(out.contains("br"), "should have branch: {out}");
}

#[test]
fn lexes_comments_and_literals() {
    let tokens = tokenize("int main(){/*x*/return 0x10 + 07 // y\n;}")
        .unwrap()
        .into_iter()
        .map(|token| token.kind)
        .collect::<Vec<_>>();

    assert_eq!(
        tokens,
        vec![
            TokenKind::KwInt,
            TokenKind::Ident("main".to_string()),
            TokenKind::LParen,
            TokenKind::RParen,
            TokenKind::LBrace,
            TokenKind::KwReturn,
            TokenKind::IntLiteral(16),
            TokenKind::Plus,
            TokenKind::IntLiteral(7),
            TokenKind::Semicolon,
            TokenKind::RBrace,
            TokenKind::Eof,
        ]
    );
}

#[test]
fn parses_expression_precedence() {
    let tokens = tokenize("int main() { return 1 + 2 * 3 == 7 || 0; }").unwrap();
    let program = parse(tokens).unwrap();
    assert_eq!(program.items.len(), 1);
}

#[test]
fn parses_const_and_var() {
    let src = "int main() { const int x = 2; int y = x + 1; y = y - 1; return y; }";
    let tokens = tokenize(src).unwrap();
    let program = parse(tokens).unwrap();
    assert_eq!(program.items.len(), 1);
}

#[test]
fn parses_function_with_params() {
    let src = "int add(int a, int b) { return a + b; }";
    let tokens = tokenize(src).unwrap();
    let program = parse(tokens).unwrap();
    assert_eq!(program.items.len(), 1);
}

#[test]
fn compiles_to_koopa() {
    let source = "int main() { return 1 + 2 * -3; }";
    let output = compile_source(source, OutputMode::Koopa).unwrap();
    assert_eq!(
        output,
        "fun @main(): i32 {\n%entry:\n  %0 = add -3, 0\n  %1 = mul 2, %0\n  %2 = add 1, %1\n  ret %2\n}\n"
    );
}

#[test]
fn compiles_to_riscv() {
    let source = "int main() { return 0x10 + 07; }";
    let output = compile_source(source, OutputMode::Riscv).unwrap();
    assert!(output.contains("main:"), "RISC-V output missing main label");
    assert!(output.contains("  ret"), "RISC-V output missing ret");
}

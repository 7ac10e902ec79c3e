//! A compiler from SysY, a subset of C, to Koopa IR text and RISC-V assembly.

pub mod ast;
pub mod ast_to_ir;
pub mod cfg;
pub mod cli;
pub mod codegen;
pub mod domtree;
pub mod error;
pub mod eval;
pub mod forwarding_meaning;
pub mod frame;
pub mod function_meaning;
pub mod global_values;
pub mod grammar;
pub mod inlining_meaning;
pub mod ir;
pub mod ir_builder;
pub mod ir_to_koopa;
pub mod ir_to_riscv;
pub mod koopa_gen;
pub mod koopa_reading;
pub mod koopa_text;
pub mod leaf_code;
pub mod leaf_meaning;
pub mod lexer;
pub mod links;
pub mod live_lowering;
pub mod lowering_meaning;
pub mod meaning;
pub mod names;
pub mod numbering_meaning;
pub mod opt;
pub mod output_values;
pub mod parser;
pub mod pass_blocks;
pub mod pass_links;
pub mod pass_meaning;
pub mod phrases;
pub mod pipeline_meaning;
pub mod promoted_form;
pub mod promotion;
pub mod promotion_lowering;
pub mod promotion_meaning;
pub mod promotion_phis;
pub mod promotion_rename;
pub mod promotion_tree;
pub mod promotion_values;
pub mod reading;
pub mod reg_alloc;
mod renaming;
pub mod riscv_calls;
pub mod riscv_code;
pub mod riscv_data;
pub mod riscv_functions;
pub mod riscv_gen;
pub mod riscv_machine;
pub mod riscv_meaning;
pub mod riscv_reading;
pub mod riscv_text;
pub mod scopes;
pub mod spelling;
pub mod ssa;
pub mod statement_meaning;
pub mod text;
pub mod thinning;
pub mod translate;
pub mod translation_blocks;
pub mod translation_flow;
pub mod translation_links;
pub mod translation_meaning;
pub mod tree_code;
pub mod words;

pub use error::{CompilerError, CompilerResult};
use vstd::prelude::*;
use vstd::string::StringSliceAdditionalSpecFns;

verus! {

/// What a program is compiled to.
#[derive(Debug, Clone, Copy, PartialEq, Eq, Structural)]
pub enum OutputMode {
    Koopa,
    Riscv,
    KoopaIr,
    RiscvIr,
}

/// The output for a source text, or the first error in it.
pub open spec fn output_of(source: Seq<u8>, mode: OutputMode) -> Result<
    Seq<char>,
    error::ErrorView,
> {
    match lexer::lex(source, 0) {
        Ok(tokens) => match grammar::program(Seq::empty(), tokens, 0) {
            Ok(items) => codegen::generated(items, mode),
            Err(e) => Err(e),
        },
        Err(e) => Err(e),
    }
}

/// Compiles a source text.
pub fn compile_source(source: &str, mode: OutputMode) -> (r: CompilerResult<String>)
    ensures
        match output_of(source.spec_bytes(), mode) {
            Ok(s) => r matches Ok(x) && x@ == s,
            Err(e) => r matches Err(x) && x@ == e,
        },
{
    let tokens = lexer::tokenize(source)?;
    assert(parser::marks_end(lexer::tokens_view(tokens@))) by {
        let all = lexer::tokens_view(tokens@);
        let i = tokens@.len() - 1;
        assert(all[i] == tokens@[i].view());
        assert(all[i].kind == lexer::KindV::Other(lexer::TokenKind::Eof));
    }
    let program = parser::parse(tokens)?;
    codegen::generate(&program, mode)
}

/// The two names for each form of output stand for the same output.
pub proof fn modes_agree(source: Seq<u8>)
    ensures
        output_of(source, OutputMode::Koopa) == output_of(source, OutputMode::KoopaIr),
        output_of(source, OutputMode::Riscv) == output_of(source, OutputMode::RiscvIr),
{
}

/// A source text that compiles to assembly compiles to Koopa IR, and one that compiles to Koopa IR
/// fails to compile to assembly only where its frames or variables do not fit machine words.
pub proof fn outputs_agree(source: Seq<u8>)
    ensures
        output_of(source, OutputMode::Riscv) is Ok ==> output_of(source, OutputMode::Koopa) is Ok,
        output_of(source, OutputMode::Koopa) is Ok && output_of(source, OutputMode::Riscv) is Err
            ==> output_of(source, OutputMode::Riscv) == Err::<Seq<char>, error::ErrorView>(
            translate::too_large(),
        ),
{
}

} // verus!

//! The command line.

use crate::text::{self, str_eq};
use crate::OutputMode;
use vstd::prelude::*;

verus! {

/// What the command line asks for.
#[derive(Debug)]
pub struct CliArgs {
    pub mode: OutputMode,
    pub input: String,
    pub output: String,
}

/// The view of a [`CliArgs`].
pub struct CliArgsV {
    pub mode: OutputMode,
    pub input: Seq<char>,
    pub output: Seq<char>,
}

impl View for CliArgs {
    type V = CliArgsV;

    open spec fn view(&self) -> CliArgsV {
        CliArgsV { mode: self.mode, input: self.input@, output: self.output@ }
    }
}

/// The form of output that an option asks for.
pub open spec fn mode_of(option: Seq<char>) -> Option<OutputMode> {
    if option == "-koopa"@ {
        Some(OutputMode::Koopa)
    } else if option == "-riscv"@ {
        Some(OutputMode::Riscv)
    } else if option == "-koopair"@ {
        Some(OutputMode::KoopaIr)
    } else {
        None
    }
}

/// What the words of a command line, the program's name first, ask for, where they are of the form
/// that [`CliArgs::usage`] gives.
pub open spec fn parsed(args: Seq<Seq<char>>) -> Option<CliArgsV> {
    if args.len() == 5 && args[3] == "-o"@ {
        match mode_of(args[1]) {
            Some(mode) => Some(CliArgsV { mode, input: args[2], output: args[4] }),
            None => None,
        }
    } else {
        None
    }
}

/// How the program is called.
pub open spec fn usage_text() -> Seq<char> {
    "usage: compiler (-koopa|-koopair|-riscv) <input> -o <output>"@
}

fn parse_mode(option: &str) -> (r: Option<OutputMode>)
    ensures
        r == mode_of(option@),
{
    if str_eq(option, "-koopa") {
        Some(OutputMode::Koopa)
    } else if str_eq(option, "-riscv") {
        Some(OutputMode::Riscv)
    } else if str_eq(option, "-koopair") {
        Some(OutputMode::KoopaIr)
    } else {
        None
    }
}

impl CliArgs {
    /// Reads the words of a command line, the program's name first.
    pub fn parse(args: &[String]) -> (r: Result<CliArgs, String>)
        ensures
            match parsed(text::texts(args@)) {
                Some(a) => r matches Ok(x) && x@ == a,
                None => r matches Err(m) && m@ == usage_text(),
            },
    {
        if args.len() != 5 {
            return Err(CliArgs::usage());
        }
        let mode = match parse_mode(args[1].as_str()) {
            Some(m) => m,
            None => return Err(CliArgs::usage()),
        };
        if !str_eq(args[3].as_str(), "-o") {
            return Err(CliArgs::usage());
        }
        Ok(CliArgs { mode, input: args[2].clone(), output: args[4].clone() })
    }

    /// How the program is called.
    pub fn usage() -> (r: String)
        ensures
            r@ == usage_text(),
    {
        "usage: compiler (-koopa|-koopair|-riscv) <input> -o <output>".to_owned()
    }
}

} // verus!

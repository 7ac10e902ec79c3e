//! The error that every stage of the compiler reports.

use crate::text::{self, cat2, cat4, dec_usize};
use vstd::prelude::*;

verus! {

/// A message, with the byte of the source it is about where one is known.
#[derive(Debug, Clone, PartialEq, Eq)]
pub struct CompilerError {
    message: String,
    position: Option<usize>,
}

/// What a [`CompilerError`] says.
#[verifier::ext_equal]
pub struct ErrorView {
    pub message: Seq<char>,
    pub position: Option<usize>,
}

pub type CompilerResult<T> = Result<T, CompilerError>;

/// An error without a position.
pub open spec fn err_new(message: Seq<char>) -> ErrorView {
    ErrorView { message, position: None }
}

/// An error about a byte of the source.
pub open spec fn err_at(position: usize, message: Seq<char>) -> ErrorView {
    ErrorView { message, position: Some(position) }
}

impl View for CompilerError {
    type V = ErrorView;

    closed spec fn view(&self) -> ErrorView {
        ErrorView { message: self.message@, position: self.position }
    }
}

/// How an error reads.
pub open spec fn error_text(e: ErrorView) -> Seq<char> {
    match e.position {
        Some(p) => "compile error at byte "@ + text::dec_nat(p as nat) + ": "@ + e.message,
        None => "compile error: "@ + e.message,
    }
}

impl CompilerError {
    /// An error without a position.
    pub fn new(message: String) -> (r: Self)
        ensures
            r@ == err_new(message@),
    {
        CompilerError { message, position: None }
    }

    /// An error about the byte at `position`.
    pub fn at(position: usize, message: String) -> (r: Self)
        ensures
            r@ == err_at(position, message@),
    {
        CompilerError { message, position: Some(position) }
    }

    /// The text shown to the user.
    pub fn text(&self) -> (r: String)
        ensures
            r@ == error_text(self@),
    {
        match self.position {
            Some(p) => cat4(
                "compile error at byte ",
                dec_usize(p).as_str(),
                ": ",
                self.message.as_str(),
            ),
            None => cat2("compile error: ", self.message.as_str()),
        }
    }
}

/// An error made of a fixed message.
pub fn fail(message: &str) -> (r: CompilerError)
    ensures
        r@ == err_new(message@),
{
    CompilerError::new(message.to_owned())
}

/// An error made of a fixed message, about the byte at `position`.
pub fn fail_at(position: usize, message: &str) -> (r: CompilerError)
    ensures
        r@ == err_at(position, message@),
{
    CompilerError::at(position, message.to_owned())
}

} // verus!

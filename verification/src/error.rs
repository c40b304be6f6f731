//! Why a source text or a line is rejected.
use vstd::prelude::*;

verus! {

/// A rejection, as the contracts speak of it: names are character sequences.
pub enum Fault {
    UnknownInstruction(Seq<char>),
    TakesNoParameters(Seq<char>),
    MissingParameters(Seq<char>, u8),
    TooManyParameters(Seq<char>),
    BadArgument(Seq<char>),
    LabelBodyOutsideFunction,
    NestedCallBlock,
    CallWithoutBlock,
    UnclosedCallBlock,
    MissingCallad(Seq<char>),
    MissingRetad(Seq<char>),
    MissingBody(Seq<char>),
    RetOutsideFunction,
    LetArity,
}

/// Why compiling a line or a program failed.
#[derive(Debug, PartialEq, Eq)]
pub enum CompileError {
    /// The mnemonic is not one the assembler knows.
    UnknownInstruction(String),
    /// An instruction without parameters was given some.
    TakesNoParameters(String),
    /// An instruction that needs parameters was given too few.
    MissingParameters(String, u8),
    /// More than eight arguments.
    TooManyParameters(String),
    /// An argument that is not a decimal `u64`.
    BadArgument(String),
    /// `label body` outside of any `func`.
    LabelBodyOutsideFunction,
    /// A call block opened inside another one.
    NestedCallBlock,
    /// `call` without an open call block.
    CallWithoutBlock,
    /// The source ends inside a call block.
    UnclosedCallBlock,
    /// The function has no `let callad` binding.
    MissingCallad(String),
    /// The function has no `let retad` binding.
    MissingRetad(String),
    /// The function has no `label body`.
    MissingBody(String),
    /// `ret` outside of any `func`.
    RetOutsideFunction,
    /// `let` with other than two or three arguments.
    LetArity,
}

impl View for CompileError {
    type V = Fault;

    open spec fn view(&self) -> Fault {
        match self {
            CompileError::UnknownInstruction(s) => Fault::UnknownInstruction(s@),
            CompileError::TakesNoParameters(s) => Fault::TakesNoParameters(s@),
            CompileError::MissingParameters(s, n) => Fault::MissingParameters(s@, *n),
            CompileError::TooManyParameters(s) => Fault::TooManyParameters(s@),
            CompileError::BadArgument(s) => Fault::BadArgument(s@),
            CompileError::LabelBodyOutsideFunction => Fault::LabelBodyOutsideFunction,
            CompileError::NestedCallBlock => Fault::NestedCallBlock,
            CompileError::CallWithoutBlock => Fault::CallWithoutBlock,
            CompileError::UnclosedCallBlock => Fault::UnclosedCallBlock,
            CompileError::MissingCallad(s) => Fault::MissingCallad(s@),
            CompileError::MissingRetad(s) => Fault::MissingRetad(s@),
            CompileError::MissingBody(s) => Fault::MissingBody(s@),
            CompileError::RetOutsideFunction => Fault::RetOutsideFunction,
            CompileError::LetArity => Fault::LetArity,
        }
    }
}

/// A byte result as the contracts speak of it.
pub open spec fn bytes_result(r: Result<Vec<u8>, CompileError>) -> Result<Seq<u8>, Fault> {
    match r {
        Ok(v) => Ok(v@),
        Err(e) => Err(e@),
    }
}

} // verus!

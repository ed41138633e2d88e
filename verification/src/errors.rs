//! Errors of meta commands, of statement parsing and of statement execution.
use vstd::prelude::*;

verus! {

#[derive(Debug, PartialEq, Eq, Structural)]
pub enum MetaCommandError {
    Unrecognized,
}

#[derive(Debug, PartialEq, Eq, Structural)]
pub enum ParseError {
    UnrecognizedStatement,
    SyntaxError,
    NegativeId,
    StringTooLong,
}

#[derive(Debug, PartialEq, Eq, Structural)]
pub enum ExecuteError {
    TableFull,
    DuplicateKey,
}

} // verus!

//! Compile-time errors. Compilation is the only error surface: matching never
//! fails, it only reports the absence of a match.

use vstd::prelude::*;

verus! {

/// The kind of defect found while compiling a pattern.
///
/// `EmptyClass` and `BadRange` are reserved for stricter validators; the
/// current pipeline never raises them.
#[derive(Debug, Clone, Copy, PartialEq, Eq)]
pub enum ErrorKind {
    UnexpectedEof,
    UnexpectedToken(char),
    UnbalancedParen,
    UnbalancedClass,
    EmptyClass,
    BadRange(char, char),
    DanglingQuantifier,
}

/// A compile error: the kind of defect and the 0-based byte offset in the
/// pattern at which it was detected.
#[derive(Debug)]
pub struct Error {
    pub kind: ErrorKind,
    pub pos: usize,
}

/// Builds the `Err` case of any pipeline result.
pub(crate) fn err<T>(kind: ErrorKind, pos: usize) -> (r: Result<T, Error>)
    ensures
        r == Result::<T, Error>::Err(Error { kind, pos }),
{
    Err(Error { kind, pos })
}

} // verus!

//! The error type shared by the library.

use vstd::prelude::*;

verus! {

/// The kind of an input/output failure, as far as the library tells kinds apart.
#[derive(Debug, Clone, Copy, PartialEq, Eq, Structural)]
pub enum IoKind {
    NotFound,
    IsADirectory,
    InvalidData,
    Other,
}

/// An input/output failure: its kind and a message.
#[derive(Debug)]
pub struct IoFailure {
    pub kind: IoKind,
    pub message: String,
}

/// Errors of the version-control core.
#[derive(Debug)]
pub enum ChakError {
    /// A failure of reading or writing, or a refused target.
    IoError(IoFailure),
    /// A commit could not be made.
    CommitError(String),
    /// A hash pointer string shorter than the minimum length.
    InvalidHashLength(String),
    /// Any other failure, with its message.
    CustomError(String),
}

/// `e` is a `CustomError` whose message is `msg`.
pub open spec fn is_custom_error(e: ChakError, msg: Seq<char>) -> bool {
    e matches ChakError::CustomError(m) && m@ == msg
}

/// `e` is an `IoError` of kind `kind` whose message is `msg`.
pub open spec fn is_io_error(e: ChakError, kind: IoKind, msg: Seq<char>) -> bool {
    e matches ChakError::IoError(f) && f.kind == kind && f.message@ == msg
}

/// A `CustomError` with the message `msg`.
pub fn custom_error(msg: &str) -> (e: ChakError)
    ensures
        is_custom_error(e, msg@),
{
    ChakError::CustomError(msg.to_owned())
}

/// An `IoError` of kind `kind` with the message `msg`.
pub fn io_error(kind: IoKind, msg: &str) -> (e: ChakError)
    ensures
        is_io_error(e, kind, msg@),
{
    ChakError::IoError(IoFailure { kind, message: msg.to_owned() })
}

} // verus!

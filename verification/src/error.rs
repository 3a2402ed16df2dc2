//! The errors of the command layer.

use crate::parser::ParserError;
use vstd::prelude::*;

verus! {

/// Why a request was not served.
#[derive(Debug, Clone, Copy, PartialEq, Eq, Structural)]
pub enum RedisError {
    /// The transport failed. Nothing in this library reads or writes, so
    /// nothing in it gives this error out: it is here for the caller that does
    /// and wants one error type.
    Io,
    /// The bytes of the request are not a frame.
    Parser(ParserError),
    /// The request names a command that is not known.
    UnknownCommand,
    /// The request is not of the shape that its command asks for.
    InvalidArguments,
}

/// What the operations of the command layer return.
pub type Result<T> = std::result::Result<T, RedisError>;

} // verus!

//! What the handler of a connection decides: given the bytes that a client
//! has sent so far, whether to read on, to serve a request or to close.
//!
//! The handler itself reads and writes, and is not here. It keeps the bytes
//! that it has read and not yet served, hands them to `next_request` or to
//! `handle_request` after every read, and drops from their front what was
//! consumed.

use crate::command::{command_of_frame, reply_of, store_after, Command, CommandView};
use crate::error::RedisError;
use crate::parser::{decode, encode, lemma_decode_bounds, Parser, ParserError};
use crate::store::redis::Store;
use vstd::prelude::*;

verus! {

/// What the bytes that a client has sent so far hold.
#[derive(Debug, PartialEq, Eq)]
pub enum Request {
    /// A part of a request: the handler reads on.
    Incomplete,
    /// What is no request: the handler closes the connection.
    Rejected(RedisError),
    /// A request: the command that it asks for, and the number of bytes that
    /// it takes.
    Ready { command: Command, consumed: usize },
}

/// What the handler does next.
#[derive(Debug, PartialEq, Eq)]
pub enum Outcome {
    /// It reads on: the bytes are a part of a request.
    NeedMore,
    /// It closes the connection.
    Close(RedisError),
    /// It writes `response`, and drops the `consumed` bytes of the request.
    Reply { response: Vec<u8>, consumed: usize },
}

/// The request that `buffer` starts with, as a mathematical value: the
/// command and the number of bytes, `None` where the bytes are a part of a
/// request, or the error that closes the connection.
pub open spec fn request_of(buffer: Seq<u8>) -> Result<Option<(CommandView, nat)>, RedisError> {
    match decode(buffer) {
        Err(ParserError::Incomplete) => Ok(None),
        Err(e) => Err(RedisError::Parser(e)),
        Ok((frame, n)) => match command_of_frame(frame) {
            Ok(command) => Ok(Some((command, n))),
            Err(e) => Err(e),
        },
    }
}

/// Decodes the request that `buffer` starts with.
pub fn next_request(buffer: &[u8]) -> (request: Request)
    ensures
        match request_of(buffer@) {
            Ok(None) => request is Incomplete,
            Ok(Some((command, n))) => request matches Request::Ready { command: got, consumed }
                && got@ == command && consumed == n,
            Err(e) => request matches Request::Rejected(got) && got == e,
        },
{
    match Parser::parse(buffer) {
        Err(ParserError::Incomplete) => Request::Incomplete,
        Err(e) => Request::Rejected(RedisError::Parser(e)),
        Ok((frame, rest)) => {
            proof {
                lemma_decode_bounds(buffer@);
            }
            let consumed = buffer.len() - rest.len();
            match Command::from_resp(frame) {
                Ok(command) => Request::Ready { command, consumed },
                Err(e) => Request::Rejected(e),
            }
        },
    }
}

/// Serves the request that `buffer` starts with at the instant `now`.
///
/// The store is touched only where a request is served, and then as the
/// command says.
pub fn handle_request(buffer: &[u8], store: &mut Store, now: u128) -> (outcome: Outcome)
    ensures
        match request_of(buffer@) {
            Ok(None) => outcome is NeedMore && final(store)@ == old(store)@,
            Err(e) => outcome matches Outcome::Close(got) && got == e && final(store)@ == old(
                store,
            )@,
            Ok(Some((command, n))) => final(store)@ == store_after(command, old(store)@, now)
                && match reply_of(command, old(store)@, now) {
                Ok(frame) => outcome matches Outcome::Reply { response, consumed } && response@
                    == encode(frame) && consumed == n,
                Err(e) => outcome matches Outcome::Close(got) && got == e,
            },
        },
{
    match next_request(buffer) {
        Request::Incomplete => Outcome::NeedMore,
        Request::Rejected(e) => Outcome::Close(e),
        Request::Ready { command, consumed } => match command.execute(store, now) {
            Ok(response) => Outcome::Reply { response, consumed },
            Err(e) => Outcome::Close(e),
        },
    }
}

} // verus!

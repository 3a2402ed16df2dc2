//! The command layer: from a decoded request to a command, and from a
//! command and the store to a response.

use crate::error::{RedisError, Result};
use crate::parser::decimal::{decimal, parse_u64, spec_parse_u64};
use crate::parser::{encode, lemma_array_view, views, Frame, RESPOutput};
use crate::store::datatype::{bool_text, integer_text, text_of_bool, DataType};
use crate::store::redis::{
    expired, model_after_get, model_get, model_set, model_set_ex, Lookup, Model, Store,
};
use vstd::prelude::*;

verus! {

/// The word `PING`.
pub open spec fn word_ping() -> Seq<u8> {
    seq![80u8, 73u8, 78u8, 71u8]
}

/// The word `ECHO`.
pub open spec fn word_echo() -> Seq<u8> {
    seq![69u8, 67u8, 72u8, 79u8]
}

/// The word `GET`.
pub open spec fn word_get() -> Seq<u8> {
    seq![71u8, 69u8, 84u8]
}

/// The word `SET`.
pub open spec fn word_set() -> Seq<u8> {
    seq![83u8, 69u8, 84u8]
}

/// The word `CONFIG`.
pub open spec fn word_config() -> Seq<u8> {
    seq![67u8, 79u8, 78u8, 70u8, 73u8, 71u8]
}

/// The word `EX`, the option that gives a lifetime in seconds.
pub open spec fn word_ex() -> Seq<u8> {
    seq![69u8, 88u8]
}

/// The word `PX`, the option that gives a lifetime in milliseconds.
pub open spec fn word_px() -> Seq<u8> {
    seq![80u8, 88u8]
}

/// The text `nil`, which stands for the null frame where text is asked for.
pub open spec fn text_nil() -> Seq<u8> {
    seq![110u8, 105u8, 108u8]
}

/// The text `PONG`, the answer to `PING`.
pub open spec fn text_pong() -> Seq<u8> {
    seq![80u8, 79u8, 78u8, 71u8]
}

/// The text `OK`, the answer to a write.
pub open spec fn text_ok() -> Seq<u8> {
    seq![79u8, 75u8]
}

/// The nanoseconds of a second.
pub const NANOS_PER_SECOND: u128 = 1_000_000_000;

/// The nanoseconds of a millisecond.
pub const NANOS_PER_MILLI: u128 = 1_000_000;

/// The upper-case form of an ASCII letter; any other byte is left as it is.
pub open spec fn to_upper(b: u8) -> u8 {
    if 97 <= b <= 122 {
        (b - 32) as u8
    } else {
        b
    }
}

/// `text` is `word`, whatever the case of its ASCII letters. `word` is
/// written in upper case.
pub open spec fn is_word(text: Seq<u8>, word: Seq<u8>) -> bool {
    text.len() == word.len() && forall|i: int|
        0 <= i < text.len() ==> to_upper(#[trigger] text[i]) == word[i]
}

/// A command, as a mathematical value.
pub enum CommandView {
    /// `PING`.
    Ping,
    /// `ECHO` of a text.
    Echo(Seq<u8>),
    /// `GET` of a key.
    Get(Seq<u8>),
    /// `SET` of a key to a value, with a lifetime in nanoseconds or to stay.
    SetValue(Seq<u8>, Seq<u8>, Option<u128>),
    /// `CONFIG` with its subcommand, a key and, for a write, a value.
    Config(Seq<u8>, Seq<u8>, Option<Seq<u8>>),
}

/// A command.
#[derive(Debug, PartialEq, Eq)]
pub enum Command {
    /// `PING`.
    Ping,
    /// `ECHO` of a text.
    Echo(Vec<u8>),
    /// `GET` of a key.
    Get(Vec<u8>),
    /// `SET` of a key to a value, with a lifetime in nanoseconds or to stay.
    SetValue(Vec<u8>, DataType, Option<u128>),
    /// `CONFIG` with its subcommand, a key and, for a write, a value.
    Config(Vec<u8>, Vec<u8>, Option<DataType>),
}

impl View for Command {
    type V = CommandView;

    open spec fn view(&self) -> CommandView {
        match self {
            Command::Ping => CommandView::Ping,
            Command::Echo(text) => CommandView::Echo(text@),
            Command::Get(key) => CommandView::Get(key@),
            Command::SetValue(key, value, ttl) => CommandView::SetValue(key@, value@, *ttl),
            Command::Config(sub, key, value) => CommandView::Config(
                sub@,
                key@,
                match value {
                    Some(value) => Some(value@),
                    None => None,
                },
            ),
        }
    }
}

/// The text that an argument stands for: the bytes of a string, the decimal
/// text of an integer, the text of a double, `true` or `false`, and `nil` for
/// the null frame. An error, the null bulk string and an array stand for
/// none.
pub open spec fn argument_text(frame: Frame) -> Option<Seq<u8>> {
    match frame {
        Frame::BulkString(bytes) => Some(bytes),
        Frame::SimpleString(text) => Some(text),
        Frame::Integer(value) => Some(decimal(value as int)),
        Frame::Double(text) => Some(text),
        Frame::Boolean(value) => Some(text_of_bool(value)),
        Frame::Null => Some(text_nil()),
        _ => None,
    }
}

/// The text of the argument at `index`, where there is such an argument and
/// it stands for a text.
pub open spec fn text_at(args: Seq<Frame>, index: int) -> Option<Seq<u8>> {
    if 0 <= index < args.len() {
        argument_text(args[index])
    } else {
        None
    }
}

/// The lifetime that the arguments of `SET` ask for, in nanoseconds.
///
/// With three arguments or fewer there is none. With more, the third and the
/// fourth must be bulk strings and the fourth an unsigned decimal: then `EX`
/// takes it as seconds, `PX` as milliseconds, and any other option asks for
/// no lifetime.
pub open spec fn expiry_of(args: Seq<Frame>) -> Result<Option<u128>> {
    if args.len() <= 3 {
        Ok(None)
    } else {
        match (args[2], args[3]) {
            (Frame::BulkString(option), Frame::BulkString(amount)) => match spec_parse_u64(
                amount,
            ) {
                None => Err(RedisError::InvalidArguments),
                Some(n) => if is_word(option, word_ex()) {
                    Ok(Some((n * NANOS_PER_SECOND) as u128))
                } else if is_word(option, word_px()) {
                    Ok(Some((n * NANOS_PER_MILLI) as u128))
                } else {
                    Ok(None)
                },
            },
            _ => Err(RedisError::InvalidArguments),
        }
    }
}

/// The command that a request of the name `name` and the arguments `args`
/// asks for. Arguments behind those that the command reads are ignored.
pub open spec fn named_command(name: Seq<u8>, args: Seq<Frame>) -> Result<CommandView> {
    if is_word(name, word_ping()) {
        Ok(CommandView::Ping)
    } else if is_word(name, word_echo()) {
        match text_at(args, 0) {
            Some(text) => Ok(CommandView::Echo(text)),
            None => Err(RedisError::InvalidArguments),
        }
    } else if is_word(name, word_get()) {
        match text_at(args, 0) {
            Some(key) => Ok(CommandView::Get(key)),
            None => Err(RedisError::InvalidArguments),
        }
    } else if is_word(name, word_set()) {
        match (text_at(args, 0), text_at(args, 1), expiry_of(args)) {
            (Some(key), Some(value), Ok(ttl)) => Ok(CommandView::SetValue(key, value, ttl)),
            _ => Err(RedisError::InvalidArguments),
        }
    } else if is_word(name, word_config()) {
        match text_at(args, 0) {
            None => Err(RedisError::InvalidArguments),
            Some(sub) => if is_word(sub, word_get()) {
                match text_at(args, 1) {
                    Some(key) => Ok(CommandView::Config(word_get(), key, None)),
                    None => Err(RedisError::InvalidArguments),
                }
            } else if is_word(sub, word_set()) {
                match (text_at(args, 1), text_at(args, 2)) {
                    (Some(key), Some(value)) => Ok(
                        CommandView::Config(word_set(), key, Some(value)),
                    ),
                    _ => Err(RedisError::InvalidArguments),
                }
            } else {
                Err(RedisError::InvalidArguments)
            },
        }
    } else {
        Err(RedisError::UnknownCommand)
    }
}

/// The command that the elements of a request ask for: the first is a bulk
/// string that names it, the others are its arguments.
pub open spec fn command_of(elements: Seq<Frame>) -> Result<CommandView> {
    if elements.len() == 0 {
        Err(RedisError::InvalidArguments)
    } else {
        match elements[0] {
            Frame::BulkString(name) => named_command(name, elements.skip(1)),
            _ => Err(RedisError::InvalidArguments),
        }
    }
}

/// The command that a frame asks for. A request is an array; of the other
/// frames a simple string is taken as `ECHO` of its text, and an integer, a
/// double and a boolean as `GET` of their text.
pub open spec fn command_of_frame(frame: Frame) -> Result<CommandView> {
    match frame {
        Frame::Array(elements) => command_of(elements),
        Frame::SimpleString(text) => Ok(CommandView::Echo(text)),
        Frame::Integer(value) => Ok(CommandView::Get(decimal(value as int))),
        Frame::Double(text) => Ok(CommandView::Get(text)),
        Frame::Boolean(value) => Ok(CommandView::Get(text_of_bool(value))),
        _ => Err(RedisError::InvalidArguments),
    }
}

/// The frame that answers a reader: the value as a bulk string, or the null
/// bulk string where there is none.
pub open spec fn bulk_reply(found: Option<Seq<u8>>) -> Frame {
    match found {
        Some(value) => Frame::BulkString(value),
        None => Frame::NullBulkString,
    }
}

/// The frame that answers `command`, served at the instant `now` by a store
/// that holds `model`.
///
/// `CONFIG` reads and writes the store as `GET` and `SET` do. Its subcommand
/// is matched whatever its case, and a subcommand that is neither `GET` nor
/// `SET`, or a `SET` without a value, is refused.
pub open spec fn reply_of(command: CommandView, model: Model, now: u128) -> Result<Frame> {
    match command {
        CommandView::Ping => Ok(Frame::SimpleString(text_pong())),
        CommandView::Echo(text) => Ok(Frame::BulkString(text)),
        CommandView::Get(key) => Ok(bulk_reply(model_get(model, key, now))),
        CommandView::SetValue(_, _, _) => Ok(Frame::SimpleString(text_ok())),
        CommandView::Config(sub, key, value) => if is_word(sub, word_get()) {
            Ok(bulk_reply(model_get(model, key, now)))
        } else if is_word(sub, word_set()) && value is Some {
            Ok(Frame::SimpleString(text_ok()))
        } else {
            Err(RedisError::InvalidArguments)
        },
    }
}

/// What the store holds once `command` was served at the instant `now`.
pub open spec fn store_after(command: CommandView, model: Model, now: u128) -> Model {
    match command {
        CommandView::Get(key) => model_after_get(model, key, now),
        CommandView::SetValue(key, value, None) => model_set(model, key, value),
        CommandView::SetValue(key, value, Some(ttl)) => model_set_ex(model, key, value, ttl, now),
        CommandView::Config(sub, key, value) => if is_word(sub, word_get()) {
            model_after_get(model, key, now)
        } else if is_word(sub, word_set()) && value is Some {
            model_set(model, key, value->Some_0)
        } else {
            model
        },
        _ => model,
    }
}

/// Serving `command` at the instant `now` takes a write to the store: it is
/// a write, or it reads a key whose entry has expired and is to be removed.
pub open spec fn writes(command: CommandView, model: Model, now: u128) -> bool {
    match command {
        CommandView::Get(key) => model.dom().contains(key) && expired(model[key], now),
        CommandView::SetValue(_, _, _) => true,
        CommandView::Config(sub, key, value) => if is_word(sub, word_get()) {
            model.dom().contains(key) && expired(model[key], now)
        } else {
            is_word(sub, word_set()) && value is Some
        },
        _ => false,
    }
}

/// `result` holds the bytes that write the frame `expected`, or the same
/// error.
pub open spec fn is_reply(result: Result<Vec<u8>>, expected: Result<Frame>) -> bool {
    match expected {
        Ok(frame) => result matches Ok(bytes) && bytes@ == encode(frame),
        Err(e) => result matches Err(got) && got == e,
    }
}

/// A command that takes no write leaves the store as it is.
pub proof fn lemma_no_write_no_change(command: CommandView, model: Model, now: u128)
    requires
        !writes(command, model, now),
    ensures
        store_after(command, model, now) == model,
{
}

/// `result` is the command `expected`, or the same error.
pub open spec fn is_command(result: Result<Command>, expected: Result<CommandView>) -> bool {
    match expected {
        Ok(command) => result matches Ok(got) && got@ == command,
        Err(e) => result matches Err(got) && got == e,
    }
}

/// Tells whether `text` is `word`, whatever the case of its ASCII letters.
pub fn matches_word(text: &[u8], word: &[u8]) -> (r: bool)
    ensures
        r == is_word(text@, word@),
{
    if text.len() != word.len() {
        return false;
    }
    let n = text.len();
    let mut i: usize = 0;
    while i < n
        invariant
            i <= n,
            n == text@.len(),
            n == word@.len(),
            forall|j: int| 0 <= j < i ==> to_upper(#[trigger] text@[j]) == word@[j],
        decreases n - i,
    {
        let b = text[i];
        let upper = if 97 <= b && b <= 122 {
            b - 32
        } else {
            b
        };
        if upper != word[i] {
            assert(to_upper(text@[i as int]) != word@[i as int]);
            return false;
        }
        i = i + 1;
    }
    true
}

/// The text that an argument stands for.
fn text_of_argument(arg: &RESPOutput) -> (text: Option<Vec<u8>>)
    ensures
        match argument_text(arg@) {
            Some(expected) => text matches Some(got) && got@ == expected,
            None => text is None,
        },
{
    match arg {
        RESPOutput::BulkString(bytes) => Some(vstd::slice::slice_to_vec(bytes.as_slice())),
        RESPOutput::SimpleString(text) => Some(vstd::slice::slice_to_vec(text.as_slice())),
        RESPOutput::Integer(value) => Some(integer_text(*value)),
        RESPOutput::Double(text) => Some(vstd::slice::slice_to_vec(text.as_slice())),
        RESPOutput::Boolean(value) => Some(bool_text(*value)),
        RESPOutput::Null => {
            let nil: [u8; 3] = [110, 105, 108];
            assert(nil@ =~= text_nil());
            Some(vstd::slice::slice_to_vec(nil.as_slice()))
        },
        _ => None,
    }
}

/// The text of the argument at `index`.
fn argument_at(args: &[RESPOutput], index: usize) -> (text: Option<Vec<u8>>)
    ensures
        match text_at(views(args@), index as int) {
            Some(expected) => text matches Some(got) && got@ == expected,
            None => text is None,
        },
{
    if index < args.len() {
        text_of_argument(&args[index])
    } else {
        None
    }
}

/// The bytes that write `frame`.
fn written(frame: &RESPOutput) -> (bytes: Vec<u8>)
    ensures
        bytes@ == encode(frame@),
{
    let mut bytes: Vec<u8> = Vec::new();
    frame.write_to(&mut bytes);
    assert(bytes@ =~= encode(frame@));
    bytes
}

/// The bytes of the answer to `PING`.
fn pong() -> (bytes: Vec<u8>)
    ensures
        bytes@ == encode(Frame::SimpleString(text_pong())),
{
    let text: [u8; 4] = [80, 79, 78, 71];
    assert(text@ =~= text_pong());
    written(&RESPOutput::SimpleString(vstd::slice::slice_to_vec(text.as_slice())))
}

/// The bytes of the answer to a write.
fn ok() -> (bytes: Vec<u8>)
    ensures
        bytes@ == encode(Frame::SimpleString(text_ok())),
{
    let text: [u8; 2] = [79, 75];
    assert(text@ =~= text_ok());
    written(&RESPOutput::SimpleString(vstd::slice::slice_to_vec(text.as_slice())))
}

/// The bytes of the answer to a reader who found `found`.
fn bulk(found: Result<Option<DataType>>) -> (bytes: Vec<u8>)
    requires
        found is Ok,
    ensures
        bytes@ == encode(
            bulk_reply(
                match found->Ok_0 {
                    Some(value) => Some(value@),
                    None => None,
                },
            ),
        ),
{
    match found {
        Ok(Some(value)) => written(&RESPOutput::BulkString(value.to_bytes())),
        _ => written(&RESPOutput::NullBulkString),
    }
}

/// The answer to a reader of a shared store, who cannot remove what has
/// expired: none where the entry has.
fn shared_bulk(found: Lookup) -> (reply: Option<Result<Vec<u8>>>)
    ensures
        match found {
            Lookup::Missing => reply matches Some(Ok(bytes)) && bytes@ == encode(
                Frame::NullBulkString,
            ),
            Lookup::Expired => reply is None,
            Lookup::Found(value) => reply matches Some(Ok(bytes)) && bytes@ == encode(
                Frame::BulkString(value@),
            ),
        },
{
    match found {
        Lookup::Missing => Some(Ok(written(&RESPOutput::NullBulkString))),
        Lookup::Expired => None,
        Lookup::Found(value) => Some(Ok(written(&RESPOutput::BulkString(value.to_bytes())))),
    }
}

impl Command {
    /// The command that a decoded frame asks for.
    pub fn from_resp(resp: RESPOutput) -> (result: Result<Self>)
        ensures
            is_command(result, command_of_frame(resp@)),
    {
        match resp {
            RESPOutput::Array(elements) => {
                proof {
                    lemma_array_view(elements);
                }
                Self::parse_command(elements)
            },
            RESPOutput::SimpleString(text) => Ok(Command::Echo(text)),
            RESPOutput::Integer(value) => Ok(Command::Get(integer_text(value))),
            RESPOutput::Double(text) => Ok(Command::Get(text)),
            RESPOutput::Boolean(value) => Ok(Command::Get(bool_text(value))),
            _ => Err(RedisError::InvalidArguments),
        }
    }

    /// The command that the elements of a request ask for.
    pub fn parse_command(elements: Vec<RESPOutput>) -> (result: Result<Self>)
        ensures
            is_command(result, command_of(views(elements@))),
    {
        if elements.len() == 0 {
            return Err(RedisError::InvalidArguments);
        }
        let name = match &elements[0] {
            RESPOutput::BulkString(name) => name.as_slice(),
            _ => {
                return Err(RedisError::InvalidArguments);
            },
        };
        let args = vstd::slice::slice_subrange(elements.as_slice(), 1, elements.len());
        assert(views(args@) =~= views(elements@).skip(1));
        let ping: [u8; 4] = [80, 73, 78, 71];
        let echo: [u8; 4] = [69, 67, 72, 79];
        let get: [u8; 3] = [71, 69, 84];
        let set: [u8; 3] = [83, 69, 84];
        let config: [u8; 6] = [67, 79, 78, 70, 73, 71];
        assert(ping@ =~= word_ping());
        assert(echo@ =~= word_echo());
        assert(get@ =~= word_get());
        assert(set@ =~= word_set());
        assert(config@ =~= word_config());
        if matches_word(name, ping.as_slice()) {
            Ok(Command::Ping)
        } else if matches_word(name, echo.as_slice()) {
            match argument_at(args, 0) {
                Some(text) => Ok(Command::Echo(text)),
                None => Err(RedisError::InvalidArguments),
            }
        } else if matches_word(name, get.as_slice()) {
            match argument_at(args, 0) {
                Some(key) => Ok(Command::Get(key)),
                None => Err(RedisError::InvalidArguments),
            }
        } else if matches_word(name, set.as_slice()) {
            let key = match argument_at(args, 0) {
                Some(key) => key,
                None => {
                    return Err(RedisError::InvalidArguments);
                },
            };
            let value = match argument_at(args, 1) {
                Some(value) => value,
                None => {
                    return Err(RedisError::InvalidArguments);
                },
            };
            match Self::parse_expiry(args) {
                Ok(ttl) => Ok(Command::SetValue(key, DataType::String(value), ttl)),
                Err(_) => Err(RedisError::InvalidArguments),
            }
        } else if matches_word(name, config.as_slice()) {
            let sub = match argument_at(args, 0) {
                Some(sub) => sub,
                None => {
                    return Err(RedisError::InvalidArguments);
                },
            };
            if matches_word(sub.as_slice(), get.as_slice()) {
                match argument_at(args, 1) {
                    Some(key) => Ok(
                        Command::Config(vstd::slice::slice_to_vec(get.as_slice()), key, None),
                    ),
                    None => Err(RedisError::InvalidArguments),
                }
            } else if matches_word(sub.as_slice(), set.as_slice()) {
                let key = match argument_at(args, 1) {
                    Some(key) => key,
                    None => {
                        return Err(RedisError::InvalidArguments);
                    },
                };
                match argument_at(args, 2) {
                    Some(value) => Ok(
                        Command::Config(
                            vstd::slice::slice_to_vec(set.as_slice()),
                            key,
                            Some(DataType::String(value)),
                        ),
                    ),
                    None => Err(RedisError::InvalidArguments),
                }
            } else {
                Err(RedisError::InvalidArguments)
            }
        } else {
            Err(RedisError::UnknownCommand)
        }
    }

    /// Serves the command at the instant `now`, and returns the bytes of the
    /// response.
    pub fn execute(&self, store: &mut Store, now: u128) -> (result: Result<Vec<u8>>)
        ensures
            is_reply(result, reply_of(self@, old(store)@, now)),
            final(store)@ == store_after(self@, old(store)@, now),
    {
        let get: [u8; 3] = [71, 69, 84];
        let set: [u8; 3] = [83, 69, 84];
        assert(get@ =~= word_get());
        assert(set@ =~= word_set());
        match self {
            Command::Ping => Ok(pong()),
            Command::Echo(text) => Ok(
                written(&RESPOutput::BulkString(vstd::slice::slice_to_vec(text.as_slice()))),
            ),
            Command::Get(key) => Ok(bulk(store.get(key.as_slice(), now))),
            Command::SetValue(key, value, ttl) => {
                match ttl {
                    Some(ttl) => {
                        let _ = store.set_ex(key.as_slice(), value.clone(), *ttl, now);
                    },
                    None => {
                        let _ = store.set(key.as_slice(), value.clone());
                    },
                }
                Ok(ok())
            },
            Command::Config(sub, key, value) => {
                if matches_word(sub.as_slice(), get.as_slice()) {
                    Ok(bulk(store.get(key.as_slice(), now)))
                } else if matches_word(sub.as_slice(), set.as_slice()) {
                    match value {
                        Some(value) => {
                            let _ = store.set(key.as_slice(), value.clone());
                            Ok(ok())
                        },
                        None => Err(RedisError::InvalidArguments),
                    }
                } else {
                    Err(RedisError::InvalidArguments)
                }
            },
        }
    }

    /// Serves the command at the instant `now` from a store that is shared
    /// with other readers, where that can be done: `None` where serving it
    /// takes a write, and then `execute` serves it.
    pub fn execute_read(&self, store: &Store, now: u128) -> (result: Option<Result<Vec<u8>>>)
        ensures
            result is None <==> writes(self@, store@, now),
            result matches Some(reply) ==> is_reply(reply, reply_of(self@, store@, now)),
    {
        let get: [u8; 3] = [71, 69, 84];
        let set: [u8; 3] = [83, 69, 84];
        assert(get@ =~= word_get());
        assert(set@ =~= word_set());
        match self {
            Command::Ping => Some(Ok(pong())),
            Command::Echo(text) => Some(
                Ok(written(&RESPOutput::BulkString(vstd::slice::slice_to_vec(text.as_slice())))),
            ),
            Command::Get(key) => shared_bulk(store.lookup(key.as_slice(), now)),
            Command::SetValue(_, _, _) => None,
            Command::Config(sub, key, value) => {
                if matches_word(sub.as_slice(), get.as_slice()) {
                    shared_bulk(store.lookup(key.as_slice(), now))
                } else if matches_word(sub.as_slice(), set.as_slice()) {
                    match value {
                        Some(_) => None,
                        None => Some(Err(RedisError::InvalidArguments)),
                    }
                } else {
                    Some(Err(RedisError::InvalidArguments))
                }
            },
        }
    }

    /// The lifetime that the arguments of `SET` ask for, in nanoseconds.
    pub fn parse_expiry(args: &[RESPOutput]) -> (result: Result<Option<u128>>)
        ensures
            result == expiry_of(views(args@)),
    {
        if args.len() <= 3 {
            return Ok(None);
        }
        let (option, amount) = match (&args[2], &args[3]) {
            (RESPOutput::BulkString(option), RESPOutput::BulkString(amount)) => (option, amount),
            _ => {
                return Err(RedisError::InvalidArguments);
            },
        };
        let n = match parse_u64(amount.as_slice()) {
            Some(n) => n,
            None => {
                return Err(RedisError::InvalidArguments);
            },
        };
        let ex: [u8; 2] = [69, 88];
        let px: [u8; 2] = [80, 88];
        assert(ex@ =~= word_ex());
        assert(px@ =~= word_px());
        if matches_word(option.as_slice(), ex.as_slice()) {
            Ok(Some((n as u128) * NANOS_PER_SECOND))
        } else if matches_word(option.as_slice(), px.as_slice()) {
            Ok(Some((n as u128) * NANOS_PER_MILLI))
        } else {
            Ok(None)
        }
    }
}

} // verus!

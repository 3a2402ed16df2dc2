//! The wire protocol: frames, their decoder and their encoder.
//!
//! A frame starts with one byte that tells its kind. The scalar kinds put
//! their payload on one line, which ends with CR LF. A bulk string declares
//! its length on such a line and is followed by that many bytes and CR LF. An
//! array declares its count and is followed by that many frames.

pub mod decimal;
pub mod proofs;
pub mod rdb;

use crate::parser::decimal::{
    decimal, is_digit, parse_i64, spec_parse_i64, write_decimal, write_digits, MINUS, PLUS,
};
use vstd::prelude::*;

verus! {

/// The byte CR.
pub const CR: u8 = 13;

/// The byte LF.
pub const LF: u8 = 10;

/// The byte `+`, which starts a simple string.
pub const SIMPLE_STRING: u8 = 43;

/// The byte `-`, which starts an error.
pub const ERROR: u8 = 45;

/// The byte `:`, which starts an integer.
pub const INTEGER: u8 = 58;

/// The byte `,`, which starts a double.
pub const DOUBLE: u8 = 44;

/// The byte `#`, which starts a boolean.
pub const BOOLEAN: u8 = 35;

/// The byte `_`, which starts the null frame.
pub const NULL: u8 = 95;

/// The byte `$`, which starts a bulk string.
pub const BULK_STRING: u8 = 36;

/// The byte `*`, which starts an array.
pub const ARRAY: u8 = 42;

/// The byte `t`, the payload of the boolean true.
pub const TRUE: u8 = 116;

/// The byte `f`, the payload of the boolean false.
pub const FALSE: u8 = 102;

/// The byte `.`, which separates the fraction of a double.
pub const DOT: u8 = 46;

/// A frame as a mathematical value: what the contracts of the codec speak of.
pub enum Frame {
    /// A line of text.
    SimpleString(Seq<u8>),
    /// A line of text that reports an error.
    Error(Seq<u8>),
    /// A signed 64-bit integer.
    Integer(i64),
    /// A decimal number, held as the text that writes it.
    Double(Seq<u8>),
    /// True or false.
    Boolean(bool),
    /// The absence of a value.
    Null,
    /// A sequence of bytes of any content.
    BulkString(Seq<u8>),
    /// The bulk string that is absent, as distinct from the empty one.
    NullBulkString,
    /// A sequence of frames.
    Array(Seq<Frame>),
}

/// A frame of the wire protocol.
#[derive(Debug, PartialEq, Eq)]
pub enum RESPOutput {
    /// A line of text.
    SimpleString(Vec<u8>),
    /// A line of text that reports an error.
    Error(Vec<u8>),
    /// A signed 64-bit integer.
    Integer(i64),
    /// A decimal number, held as the text that writes it.
    Double(Vec<u8>),
    /// True or false.
    Boolean(bool),
    /// The absence of a value.
    Null,
    /// A sequence of bytes of any content.
    BulkString(Vec<u8>),
    /// The bulk string that is absent, as distinct from the empty one.
    NullBulkString,
    /// A sequence of frames.
    Array(Vec<RESPOutput>),
}

impl Clone for RESPOutput {
    fn clone(&self) -> (copy: Self)
        ensures
            copy@ == self@,
        decreases self,
    {
        match self {
            RESPOutput::SimpleString(text) => RESPOutput::SimpleString(
                vstd::slice::slice_to_vec(text.as_slice()),
            ),
            RESPOutput::Error(text) => RESPOutput::Error(vstd::slice::slice_to_vec(text.as_slice())),
            RESPOutput::Integer(value) => RESPOutput::Integer(*value),
            RESPOutput::Double(text) => RESPOutput::Double(
                vstd::slice::slice_to_vec(text.as_slice()),
            ),
            RESPOutput::Boolean(value) => RESPOutput::Boolean(*value),
            RESPOutput::Null => RESPOutput::Null,
            RESPOutput::BulkString(bytes) => RESPOutput::BulkString(
                vstd::slice::slice_to_vec(bytes.as_slice()),
            ),
            RESPOutput::NullBulkString => RESPOutput::NullBulkString,
            RESPOutput::Array(items) => {
                let mut copies: Vec<RESPOutput> = Vec::new();
                let mut i: usize = 0;
                while i < items.len()
                    invariant
                        i <= items.len(),
                        *self == RESPOutput::Array(*items),
                        copies@.len() == i,
                        forall|j: int| 0 <= j < i ==> (#[trigger] copies@[j])@ == items@[j]@,
                    decreases items.len() - i,
                {
                    assert(decreases_to!(*self => self->Array_0[i as int]));
                    copies.push(items[i].clone());
                    i = i + 1;
                }
                proof {
                    lemma_array_view(*items);
                    lemma_array_view(copies);
                    assert(views(copies@) =~= views(items@));
                }
                RESPOutput::Array(copies)
            },
        }
    }
}

/// What a frame is as a mathematical value.
///
/// The items of an array are taken one by one, each at a place within the
/// array: the test of the place only serves to show that the definition is
/// well founded.
pub open spec fn frame_of(out: &RESPOutput) -> Frame
    decreases out,
{
    match out {
        RESPOutput::SimpleString(text) => Frame::SimpleString(text@),
        RESPOutput::Error(text) => Frame::Error(text@),
        RESPOutput::Integer(value) => Frame::Integer(*value),
        RESPOutput::Double(text) => Frame::Double(text@),
        RESPOutput::Boolean(value) => Frame::Boolean(*value),
        RESPOutput::Null => Frame::Null,
        RESPOutput::BulkString(bytes) => Frame::BulkString(bytes@),
        RESPOutput::NullBulkString => Frame::NullBulkString,
        RESPOutput::Array(items) => Frame::Array(
            Seq::new(
                items.len() as nat,
                |i: int|
                    if 0 <= i < items.len() {
                        frame_of(&items[i])
                    } else {
                        Frame::Null
                    },
            ),
        ),
    }
}

impl View for RESPOutput {
    type V = Frame;

    open spec fn view(&self) -> Frame {
        frame_of(self)
    }
}

/// Why a byte string is not the start of a frame.
#[derive(Debug, Clone, Copy, PartialEq, Eq, Structural)]
pub enum ParserError {
    /// The bytes end before the frame does: more input may complete it.
    Incomplete,
    /// The first byte starts no kind of frame.
    BadPrefix,
    /// A line is not ended by CR LF where it must be.
    BadCRLF,
    /// A number, a boolean, a length or a count is not written as it must be.
    BadNumber,
    /// The bytes of a bulk string are not followed by CR LF at its declared
    /// length.
    LengthMismatch,
}

impl ParserError {
    /// The error in words.
    pub fn message(&self) -> (text: String)
        ensures
            text@ == match self {
                ParserError::Incomplete => "Incomplete input"@,
                ParserError::BadPrefix => "Unsupported command"@,
                ParserError::BadCRLF => "CRLF not found"@,
                ParserError::BadNumber => "Invalid input"@,
                ParserError::LengthMismatch => "Invalid input"@,
            },
    {
        match self {
            ParserError::Incomplete => "Incomplete input".to_owned(),
            ParserError::BadPrefix => "Unsupported command".to_owned(),
            ParserError::BadCRLF => "CRLF not found".to_owned(),
            ParserError::BadNumber => "Invalid input".to_owned(),
            ParserError::LengthMismatch => "Invalid input".to_owned(),
        }
    }
}

/// CR LF, the end of every line.
pub open spec fn crlf() -> Seq<u8> {
    seq![CR, LF]
}

/// CR or LF: a byte that no line holds.
pub open spec fn is_break(b: u8) -> bool {
    b == CR || b == LF
}

/// No byte of `s` is CR or LF.
pub open spec fn no_breaks(s: Seq<u8>) -> bool {
    forall|i: int| 0 <= i < s.len() ==> !is_break(#[trigger] s[i])
}

/// The place of the first CR or LF in `s`, or its length where it has none.
pub open spec fn first_break(s: Seq<u8>) -> nat
    decreases s.len(),
{
    if s.len() == 0 || is_break(s[0]) {
        0
    } else {
        1 + first_break(s.drop_first())
    }
}

/// The line that `s` starts with, and the number of bytes it takes with its
/// CR LF.
///
/// The line ends at the first CR or LF. `Incomplete` where `s` ends before
/// the LF of that CR LF; `BadCRLF` where the line is ended by a LF alone, or
/// by a CR that something else than LF follows.
pub open spec fn read_line(s: Seq<u8>) -> Result<(Seq<u8>, nat), ParserError> {
    let i = first_break(s) as int;
    if i >= s.len() {
        Err(ParserError::Incomplete)
    } else if s[i] == LF {
        Err(ParserError::BadCRLF)
    } else if i + 1 >= s.len() {
        Err(ParserError::Incomplete)
    } else if s[i + 1] != LF {
        Err(ParserError::BadCRLF)
    } else {
        Ok((s.take(i), (i + 2) as nat))
    }
}

/// The place where the run of digits that starts at `from` ends.
pub open spec fn digits_end(s: Seq<u8>, from: int) -> int
    decreases s.len() - from,
{
    if 0 <= from < s.len() && is_digit(s[from]) {
        digits_end(s, from + 1)
    } else {
        from
    }
}

/// `s` writes a decimal number: an optional sign, one digit or more, and
/// optionally a dot and one digit or more.
pub open spec fn is_decimal_number(s: Seq<u8>) -> bool {
    let start: int = if s.len() > 0 && (s[0] == PLUS || s[0] == MINUS) {
        1
    } else {
        0
    };
    let whole = digits_end(s, start);
    &&& whole > start
    &&& (whole == s.len() || (s[whole] == DOT && digits_end(s, whole + 1) > whole + 1
        && digits_end(s, whole + 1) == s.len()))
}

/// The frame is one that the decoder gives out: its lines hold no CR or LF,
/// its doubles write decimal numbers, its lengths and counts can be declared
/// as an `i64`, and so for the frames in it.
pub open spec fn well_formed(frame: Frame) -> bool
    decreases frame,
{
    match frame {
        Frame::SimpleString(text) => no_breaks(text),
        Frame::Error(text) => no_breaks(text),
        Frame::Double(text) => is_decimal_number(text),
        Frame::BulkString(bytes) => bytes.len() <= i64::MAX,
        Frame::Array(items) => items.len() <= i64::MAX && forall|i: int|
            0 <= i < items.len() ==> well_formed(#[trigger] items[i]),
        _ => true,
    }
}

/// The bytes that write a frame.
pub open spec fn encode(frame: Frame) -> Seq<u8>
    decreases frame, 0nat,
{
    match frame {
        Frame::SimpleString(text) => seq![SIMPLE_STRING] + text + crlf(),
        Frame::Error(text) => seq![ERROR] + text + crlf(),
        Frame::Integer(value) => seq![INTEGER] + decimal(value as int) + crlf(),
        Frame::Double(text) => seq![DOUBLE] + text + crlf(),
        Frame::Boolean(value) => seq![BOOLEAN, if value { TRUE } else { FALSE }] + crlf(),
        Frame::Null => seq![NULL] + crlf(),
        Frame::BulkString(bytes) => seq![BULK_STRING] + decimal(bytes.len() as int) + crlf()
            + bytes + crlf(),
        Frame::NullBulkString => seq![BULK_STRING] + decimal(-1) + crlf(),
        Frame::Array(items) => seq![ARRAY] + decimal(items.len() as int) + crlf() + encode_all(
            items,
            items.len(),
        ),
    }
}

/// The bytes that write the first `n` frames of `items`, one after the other.
pub open spec fn encode_all(items: Seq<Frame>, n: nat) -> Seq<u8>
    decreases items, n,
{
    if n == 0 || n > items.len() {
        Seq::empty()
    } else {
        encode_all(items, (n - 1) as nat) + encode(items[n - 1])
    }
}

/// What reading one frame from a byte string gives: the frame and the number
/// of bytes it takes, or the reason why there is none.
pub type Reading = Result<(Frame, nat), ParserError>;

/// The reading `r`, taken `by` bytes further into the input.
pub open spec fn shifted(r: Reading, by: nat) -> Reading {
    match r {
        Ok((frame, n)) => Ok((frame, n + by)),
        Err(e) => Err(e),
    }
}

/// The bulk string whose payload, the bytes behind `$`, is `payload`.
///
/// The first line declares the length. `-1` declares the null bulk string;
/// any other negative length is a `BadNumber`. The frame is `Incomplete`
/// until the declared bytes and two more are there, and a `LengthMismatch`
/// where those two are not CR LF.
pub open spec fn decode_bulk_string(payload: Seq<u8>) -> Reading {
    match read_line(payload) {
        Err(e) => Err(e),
        Ok((line, n)) => match spec_parse_i64(line) {
            None => Err(ParserError::BadNumber),
            Some(declared) => if declared == -1 {
                Ok((Frame::NullBulkString, n))
            } else if declared < 0 {
                Err(ParserError::BadNumber)
            } else if payload.len() - n < declared + 2 {
                Err(ParserError::Incomplete)
            } else if payload[n + declared] == CR && payload[n + declared + 1] == LF {
                Ok((Frame::BulkString(payload.subrange(n as int, n + declared)),
                    (n + declared + 2) as nat))
            } else {
                Err(ParserError::LengthMismatch)
            },
        },
    }
}

/// The frame of a scalar kind whose payload is the line `line`.
pub open spec fn scalar_of_line(prefix: u8, line: Seq<u8>) -> Result<Frame, ParserError> {
    if prefix == SIMPLE_STRING {
        Ok(Frame::SimpleString(line))
    } else if prefix == ERROR {
        Ok(Frame::Error(line))
    } else if prefix == INTEGER {
        match spec_parse_i64(line) {
            Some(value) => Ok(Frame::Integer(value)),
            None => Err(ParserError::BadNumber),
        }
    } else if prefix == DOUBLE {
        if is_decimal_number(line) {
            Ok(Frame::Double(line))
        } else {
            Err(ParserError::BadNumber)
        }
    } else if prefix == BOOLEAN {
        if line.len() == 1 && line[0] == TRUE {
            Ok(Frame::Boolean(true))
        } else if line.len() == 1 && line[0] == FALSE {
            Ok(Frame::Boolean(false))
        } else {
            Err(ParserError::BadNumber)
        }
    } else if prefix == NULL {
        if line.len() == 0 {
            Ok(Frame::Null)
        } else {
            Err(ParserError::BadCRLF)
        }
    } else {
        Err(ParserError::BadPrefix)
    }
}

/// The frame that `s` starts with.
///
/// Empty input is `Incomplete`. The first byte tells the kind, and a byte
/// that tells none is a `BadPrefix`, whatever follows it.
pub open spec fn decode(s: Seq<u8>) -> Reading
    decreases s.len(), 0nat,
{
    if s.len() == 0 {
        Err(ParserError::Incomplete)
    } else if s[0] == ARRAY {
        shifted(decode_array(s.skip(1)), 1)
    } else if s[0] == BULK_STRING {
        shifted(decode_bulk_string(s.skip(1)), 1)
    } else if s[0] == SIMPLE_STRING || s[0] == ERROR || s[0] == INTEGER || s[0] == DOUBLE || s[0]
        == BOOLEAN || s[0] == NULL {
        match read_line(s.skip(1)) {
            Err(e) => Err(e),
            Ok((line, n)) => match scalar_of_line(s[0], line) {
                Ok(frame) => Ok((frame, n + 1)),
                Err(e) => Err(e),
            },
        }
    } else {
        Err(ParserError::BadPrefix)
    }
}

/// The array whose payload, the bytes behind `*`, is `payload`.
///
/// The first line declares the count, and a negative count is a `BadNumber`.
/// Then that many frames follow, and the first of them that cannot be read
/// decides the error.
pub open spec fn decode_array(payload: Seq<u8>) -> Reading
    decreases payload.len(), 0nat,
{
    match read_line(payload) {
        Err(e) => Err(e),
        Ok((line, n)) => match spec_parse_i64(line) {
            None => Err(ParserError::BadNumber),
            Some(count) => if count < 0 {
                Err(ParserError::BadNumber)
            } else {
                match decode_frames(payload.skip(n as int), count as nat) {
                    Ok((items, m)) => Ok((Frame::Array(items), n + m)),
                    Err(e) => Err(e),
                }
            },
        },
    }
}

/// The first `count` frames of `s`, one after the other, and the number of
/// bytes that they take together.
///
/// A frame never takes more bytes than there are (see
/// `lemma_decode_frames_bounds`), so the test of `m` against the length only
/// serves to show that the definition is well founded.
pub open spec fn decode_frames(s: Seq<u8>, count: nat) -> Result<(Seq<Frame>, nat), ParserError>
    decreases s.len(), count,
{
    if count == 0 {
        Ok((Seq::empty(), 0))
    } else {
        match decode_frames(s, (count - 1) as nat) {
            Err(e) => Err(e),
            Ok((items, m)) => if m > s.len() {
                Err(ParserError::Incomplete)
            } else {
                match decode(s.skip(m as int)) {
                    Err(e) => Err(e),
                    Ok((item, n)) => Ok((items.push(item), m + n)),
                }
            },
        }
    }
}

/// The views of the frames of `items`, in their order.
pub open spec fn views(items: Seq<RESPOutput>) -> Seq<Frame> {
    Seq::new(items.len(), |i: int| items[i]@)
}

/// An array frame is seen as the array of what its items are seen as.
pub proof fn lemma_array_view(items: Vec<RESPOutput>)
    ensures
        RESPOutput::Array(items)@ == Frame::Array(views(items@)),
{
    let a = RESPOutput::Array(items)@->Array_0;
    assert(a.len() == items.len());
    assert(a =~= views(items@));
}

/// `first_break` is at most the length, no byte before it is CR or LF, and
/// the byte at it is, where there is one.
pub proof fn lemma_first_break(s: Seq<u8>)
    ensures
        first_break(s) <= s.len(),
        no_breaks(s.take(first_break(s) as int)),
        first_break(s) < s.len() ==> is_break(s[first_break(s) as int]),
    decreases s.len(),
{
    if s.len() == 0 || is_break(s[0]) {
    } else {
        let t = s.drop_first();
        lemma_first_break(t);
        let k = first_break(s) as int;
        assert forall|i: int| 0 <= i < k implies !is_break(#[trigger] s.take(k)[i]) by {
            if i > 0 {
                assert(s.take(k)[i] == t.take(k - 1)[i - 1]);
            }
        }
    }
}

/// The place `i` is `first_break(s)` where no byte before it is CR or LF and
/// the byte at it is one, or `s` ends there.
pub proof fn lemma_first_break_at(s: Seq<u8>, i: int)
    requires
        0 <= i <= s.len(),
        forall|j: int| 0 <= j < i ==> !is_break(#[trigger] s[j]),
        i < s.len() ==> is_break(s[i]),
    ensures
        first_break(s) == i,
    decreases s.len(),
{
    if i > 0 {
        let t = s.drop_first();
        assert forall|j: int| 0 <= j < i - 1 implies !is_break(#[trigger] t[j]) by {
            assert(t[j] == s[j + 1]);
        }
        lemma_first_break_at(t, i - 1);
    }
}

/// A line that was read holds no CR or LF, takes its own length and two
/// bytes, and stands at the start of the input, followed by CR LF.
pub proof fn lemma_read_line(s: Seq<u8>)
    ensures
        read_line(s) matches Ok((line, n)) ==> {
            &&& n == line.len() + 2
            &&& n <= s.len()
            &&& no_breaks(line)
            &&& s.take(n as int) == line + crlf()
        },
{
    lemma_first_break(s);
    if let Ok((line, n)) = read_line(s) {
        assert(s.take(n as int) =~= line + crlf());
    }
}

/// What stands behind `n` bytes of the payload stands behind `n + 1` bytes
/// of the frame.
pub proof fn lemma_skip_behind_prefix(s: Seq<u8>, n: nat)
    requires
        n < s.len(),
    ensures
        s.skip(1).skip(n as int) == s.skip(n + 1 as int),
{
    assert(s.skip(1).skip(n as int) =~= s.skip(n + 1 as int));
}

/// A frame that was read takes at least one byte and no more than there are.
pub proof fn lemma_decode_bounds(s: Seq<u8>)
    ensures
        decode(s) matches Ok((_, n)) ==> 1 <= n <= s.len(),
    decreases s.len(), 0nat,
{
    if s.len() > 0 {
        lemma_read_line(s.skip(1));
        if s[0] == ARRAY {
            lemma_decode_array_bounds(s.skip(1));
        }
    }
}

/// An array that was read takes no more bytes than its payload has.
pub proof fn lemma_decode_array_bounds(payload: Seq<u8>)
    ensures
        decode_array(payload) matches Ok((_, n)) ==> n <= payload.len(),
    decreases payload.len(), 0nat,
{
    lemma_read_line(payload);
    if let Ok((line, n)) = read_line(payload) {
        if let Some(count) = spec_parse_i64(line) {
            if count >= 0 {
                lemma_decode_frames_bounds(payload.skip(n as int), count as nat);
            }
        }
    }
}

/// Frames that were read are as many as were asked for, and take no more
/// bytes than there are.
pub proof fn lemma_decode_frames_bounds(s: Seq<u8>, count: nat)
    ensures
        decode_frames(s, count) matches Ok((items, m)) ==> items.len() == count && m <= s.len(),
    decreases s.len(), count,
{
    if count > 0 {
        lemma_decode_frames_bounds(s, (count - 1) as nat);
        if let Ok((items, m)) = decode_frames(s, (count - 1) as nat) {
            lemma_decode_bounds(s.skip(m as int));
        }
    }
}

/// Once a frame cannot be read, asking for more frames gives the same error.
pub proof fn lemma_decode_frames_error_stays(s: Seq<u8>, failed: nat, count: nat)
    requires
        failed <= count,
        decode_frames(s, failed) is Err,
    ensures
        decode_frames(s, count) == decode_frames(s, failed),
    decreases count,
{
    if failed < count {
        lemma_decode_frames_error_stays(s, failed, (count - 1) as nat);
    }
}

/// What `Parser::parse_until_crlf` returns: the line and the input behind it.
pub type ParserCRLFResult<'a> = Result<(&'a [u8], &'a [u8]), ParserError>;

/// What `Parser::parse` returns: the frame and the input behind it.
pub type ParserResult<'a> = Result<(RESPOutput, &'a [u8]), ParserError>;

/// `result` is what reading `input` gives according to `reading`: the same
/// error, or the frame seen as the reading's and the input behind the bytes
/// that it took.
pub open spec fn agrees<'a>(result: ParserResult<'a>, input: Seq<u8>, reading: Reading) -> bool {
    match reading {
        Ok((frame, n)) => match result {
            Ok((out, rest)) => out@ == frame && rest@ == input.skip(n as int),
            Err(_) => false,
        },
        Err(e) => match result {
            Ok(_) => false,
            Err(got) => got == e,
        },
    }
}

/// The decoder of the wire protocol.
pub struct Parser {}

impl Parser {
    /// Decodes the frame that `input` starts with, and returns it with the
    /// input behind it.
    ///
    /// The result depends on `input` alone, so a caller that gets
    /// `Incomplete` can read more and call again with all the bytes.
    pub fn parse(input: &[u8]) -> (result: ParserResult<'_>)
        ensures
            agrees(result, input@, decode(input@)),
        decreases input@.len(), 0nat,
    {
        if input.len() == 0 {
            return Err(ParserError::Incomplete);
        }
        let prefix = input[0];
        let payload = vstd::slice::slice_subrange(input, 1, input.len());
        if prefix == ARRAY {
            let result = Parser::parse_array(payload);
            proof {
                lemma_decode_array_bounds(payload@);
                if let Ok((_, n)) = decode_array(payload@) {
                    lemma_skip_behind_prefix(input@, n);
                }
            }
            result
        } else if prefix == BULK_STRING {
            let result = Parser::parse_bulk_string(payload);
            proof {
                lemma_read_line(payload@);
                if let Ok((_, n)) = decode_bulk_string(payload@) {
                    lemma_skip_behind_prefix(input@, n);
                }
            }
            result
        } else if prefix == SIMPLE_STRING || prefix == ERROR || prefix == INTEGER || prefix
            == DOUBLE || prefix == BOOLEAN || prefix == NULL {
            let (line, rest) = match Parser::parse_until_crlf(payload) {
                Ok(found) => found,
                Err(e) => {
                    return Err(e);
                },
            };
            proof {
                lemma_read_line(payload@);
                lemma_skip_behind_prefix(input@, read_line(payload@)->Ok_0.1);
            }
            match Parser::parse_scalar(prefix, line) {
                Ok(frame) => Ok((frame, rest)),
                Err(e) => Err(e),
            }
        } else {
            Err(ParserError::BadPrefix)
        }
    }

    /// Makes the frame of a scalar kind from its payload, the line behind
    /// the byte `prefix`.
    pub fn parse_scalar(prefix: u8, line: &[u8]) -> (result: Result<RESPOutput, ParserError>)
        ensures
            match scalar_of_line(prefix, line@) {
                Ok(frame) => result matches Ok(got) && got@ == frame,
                Err(e) => result matches Err(got) && got == e,
            },
    {
        if prefix == SIMPLE_STRING {
            Ok(RESPOutput::SimpleString(vstd::slice::slice_to_vec(line)))
        } else if prefix == ERROR {
            Ok(RESPOutput::Error(vstd::slice::slice_to_vec(line)))
        } else if prefix == INTEGER {
            match parse_i64(line) {
                Some(value) => Ok(RESPOutput::Integer(value)),
                None => Err(ParserError::BadNumber),
            }
        } else if prefix == DOUBLE {
            if is_decimal_text(line) {
                Ok(RESPOutput::Double(vstd::slice::slice_to_vec(line)))
            } else {
                Err(ParserError::BadNumber)
            }
        } else if prefix == BOOLEAN {
            if line.len() == 1 && line[0] == TRUE {
                Ok(RESPOutput::Boolean(true))
            } else if line.len() == 1 && line[0] == FALSE {
                Ok(RESPOutput::Boolean(false))
            } else {
                Err(ParserError::BadNumber)
            }
        } else if prefix == NULL {
            if line.len() == 0 {
                Ok(RESPOutput::Null)
            } else {
                Err(ParserError::BadCRLF)
            }
        } else {
            Err(ParserError::BadPrefix)
        }
    }

    /// Decodes an array from its payload, the bytes behind `*`.
    pub fn parse_array(payload: &[u8]) -> (result: ParserResult<'_>)
        ensures
            agrees(result, payload@, decode_array(payload@)),
        decreases payload@.len(), 0nat,
    {
        let (line, body) = match Parser::parse_until_crlf(payload) {
            Ok(found) => found,
            Err(e) => {
                return Err(e);
            },
        };
        let count = match parse_i64(line) {
            Some(count) => count,
            None => {
                return Err(ParserError::BadNumber);
            },
        };
        if count < 0 {
            return Err(ParserError::BadNumber);
        }
        let ghost header = read_line(payload@)->Ok_0.1;
        let mut items: Vec<RESPOutput> = Vec::new();
        proof {
            lemma_read_line(payload@);
            assert(views(items@) =~= Seq::<Frame>::empty());
        }
        let mut rest = body;
        let mut done: i64 = 0;
        let ghost mut taken: nat = 0;
        while done < count
            invariant
                0 <= done <= count,
                read_line(payload@) matches Ok((text, n)) && n == header && spec_parse_i64(text)
                    == Some(count),
                header <= payload@.len(),
                2 <= header,
                body@ == payload@.skip(header as int),
                decode_frames(body@, done as nat) == Ok::<(Seq<Frame>, nat), ParserError>(
                    (views(items@), taken),
                ),
                taken <= body@.len(),
                rest@ == body@.skip(taken as int),
            decreases count - done,
        {
            match Parser::parse(rest) {
                Err(e) => {
                    proof {
                        lemma_decode_frames_error_stays(body@, (done + 1) as nat, count as nat);
                    }
                    return Err(e);
                },
                Ok((item, after)) => {
                    proof {
                        lemma_decode_bounds(rest@);
                        let n = decode(rest@)->Ok_0.1;
                        assert(after@ =~= body@.skip(taken + n as int));
                        assert(views(items@.push(item)) =~= views(items@).push(item@));
                        taken = taken + n;
                    }
                    items.push(item);
                    rest = after;
                    done = done + 1;
                },
            }
        }
        proof {
            lemma_array_view(items);
            assert(rest@ =~= payload@.skip(header + taken as int));
        }
        Ok((RESPOutput::Array(items), rest))
    }

    /// Decodes a bulk string from its payload, the bytes behind `$`.
    pub fn parse_bulk_string(payload: &[u8]) -> (result: ParserResult<'_>)
        ensures
            agrees(result, payload@, decode_bulk_string(payload@)),
    {
        let (line, rest) = match Parser::parse_until_crlf(payload) {
            Ok(found) => found,
            Err(e) => {
                return Err(e);
            },
        };
        let declared = match parse_i64(line) {
            Some(declared) => declared,
            None => {
                return Err(ParserError::BadNumber);
            },
        };
        if declared == -1 {
            return Ok((RESPOutput::NullBulkString, rest));
        }
        if declared < 0 {
            return Err(ParserError::BadNumber);
        }
        proof {
            lemma_read_line(payload@);
        }
        let available = rest.len();
        if available < 2 || ((available - 2) as u64) < (declared as u64) {
            return Err(ParserError::Incomplete);
        }
        let length = declared as usize;
        if rest[length] == CR && rest[length + 1] == LF {
            let bytes = vstd::slice::slice_to_vec(vstd::slice::slice_subrange(rest, 0, length));
            let after = vstd::slice::slice_subrange(rest, length + 2, available);
            proof {
                let n = read_line(payload@)->Ok_0.1;
                assert(bytes@ =~= payload@.subrange(n as int, n + declared));
                assert(after@ =~= payload@.skip(n + declared + 2));
            }
            Ok((RESPOutput::BulkString(bytes), after))
        } else {
            Err(ParserError::LengthMismatch)
        }
    }

    /// Splits `input` at the end of its first line: the line without its
    /// CR LF, and the input behind the CR LF.
    pub fn parse_until_crlf(input: &[u8]) -> (result: ParserCRLFResult<'_>)
        ensures
            match read_line(input@) {
                Ok((line, n)) => result matches Ok((got, rest)) && got@ == line && rest@
                    == input@.skip(n as int),
                Err(e) => result matches Err(got) && got == e,
            },
    {
        let n = input.len();
        let mut i: usize = 0;
        while i < n && input[i] != CR && input[i] != LF
            invariant
                i <= n,
                n == input@.len(),
                forall|j: int| 0 <= j < i ==> !is_break(#[trigger] input@[j]),
            decreases n - i,
        {
            i = i + 1;
        }
        proof {
            lemma_first_break_at(input@, i as int);
        }
        if i == n {
            Err(ParserError::Incomplete)
        } else if input[i] == LF {
            Err(ParserError::BadCRLF)
        } else if i + 1 == n {
            Err(ParserError::Incomplete)
        } else if input[i + 1] != LF {
            Err(ParserError::BadCRLF)
        } else {
            Ok((vstd::slice::slice_subrange(input, 0, i), vstd::slice::slice_subrange(input, i + 2, n)))
        }
    }
}

/// Walks over the run of digits that starts at `from`, and returns where it
/// ends.
fn skip_digits(text: &[u8], from: usize) -> (end: usize)
    requires
        from <= text@.len(),
    ensures
        end == digits_end(text@, from as int),
        from <= end <= text@.len(),
{
    let n = text.len();
    let mut i: usize = from;
    while i < n && text[i] >= 48 && text[i] <= 57
        invariant
            from <= i <= n,
            n == text@.len(),
            digits_end(text@, from as int) == digits_end(text@, i as int),
        decreases n - i,
    {
        i = i + 1;
    }
    i
}

/// Tells whether `text` writes a decimal number.
pub fn is_decimal_text(text: &[u8]) -> (r: bool)
    ensures
        r == is_decimal_number(text@),
{
    let n = text.len();
    let start: usize = if n > 0 && (text[0] == PLUS || text[0] == MINUS) {
        1
    } else {
        0
    };
    let whole = skip_digits(text, start);
    if whole == start {
        false
    } else if whole == n {
        true
    } else if text[whole] != DOT {
        false
    } else {
        let fraction = skip_digits(text, whole + 1);
        fraction > whole + 1 && fraction == n
    }
}

/// An array is well formed where each of its items is.
pub proof fn lemma_well_formed_array(items: Seq<Frame>)
    ensures
        well_formed(Frame::Array(items)) <==> items.len() <= i64::MAX && (forall|i: int|
            0 <= i < items.len() ==> well_formed(#[trigger] items[i])),
{
    let array = Frame::Array(items);
    assert(array->Array_0 == items);
}

/// Appends `bytes` to `buf`.
fn append(buf: &mut Vec<u8>, bytes: &[u8])
    ensures
        final(buf)@ == old(buf)@ + bytes@,
{
    buf.extend_from_slice(bytes);
    assert(buf@ =~= old(buf)@ + bytes@);
}

/// Appends CR LF to `buf`.
fn end_line(buf: &mut Vec<u8>)
    ensures
        final(buf)@ == old(buf)@ + crlf(),
{
    buf.push(CR);
    buf.push(LF);
    assert(buf@ =~= old(buf)@ + crlf());
}

/// Appends a line to `buf`: the byte `prefix`, `text` and CR LF.
fn write_line(buf: &mut Vec<u8>, prefix: u8, text: &[u8])
    ensures
        final(buf)@ == old(buf)@ + (seq![prefix] + text@ + crlf()),
{
    buf.push(prefix);
    append(buf, text);
    end_line(buf);
    assert(buf@ =~= old(buf)@ + (seq![prefix] + text@ + crlf()));
}

/// Appends a line to `buf`: the byte `prefix`, the decimal text of `value`
/// and CR LF.
fn write_declared(buf: &mut Vec<u8>, prefix: u8, value: i64)
    ensures
        final(buf)@ == old(buf)@ + (seq![prefix] + decimal(value as int) + crlf()),
{
    buf.push(prefix);
    write_decimal(buf, value);
    end_line(buf);
    assert(buf@ =~= old(buf)@ + (seq![prefix] + decimal(value as int) + crlf()));
}

/// Appends a line to `buf`: the byte `prefix`, the decimal text of `count`
/// and CR LF.
fn write_count(buf: &mut Vec<u8>, prefix: u8, count: usize)
    ensures
        final(buf)@ == old(buf)@ + (seq![prefix] + decimal(count as int) + crlf()),
{
    buf.push(prefix);
    write_digits(buf, count as u64);
    end_line(buf);
    assert(buf@ =~= old(buf)@ + (seq![prefix] + decimal(count as int) + crlf()));
}

/// Tells whether `text` holds neither CR nor LF.
fn has_no_breaks(text: &[u8]) -> (r: bool)
    ensures
        r == no_breaks(text@),
{
    let n = text.len();
    let mut i: usize = 0;
    while i < n
        invariant
            i <= n,
            n == text@.len(),
            forall|j: int| 0 <= j < i ==> !is_break(#[trigger] text@[j]),
        decreases n - i,
    {
        if text[i] == CR || text[i] == LF {
            return false;
        }
        i = i + 1;
    }
    true
}

impl RESPOutput {
    /// Tells whether the frame is one that the decoder gives out, which are
    /// the frames that can be encoded and decoded again.
    pub fn is_well_formed(&self) -> (r: bool)
        ensures
            r == well_formed(self@),
        decreases self,
    {
        match self {
            RESPOutput::SimpleString(text) => has_no_breaks(text.as_slice()),
            RESPOutput::Error(text) => has_no_breaks(text.as_slice()),
            RESPOutput::Double(text) => is_decimal_text(text.as_slice()),
            RESPOutput::BulkString(bytes) => bytes.len() as u64 <= 0x7fff_ffff_ffff_ffff,
            RESPOutput::Array(items) => {
                if items.len() as u64 > 0x7fff_ffff_ffff_ffff {
                    proof {
                        lemma_array_view(*items);
                        lemma_well_formed_array(views(items@));
                    }
                    return false;
                }
                proof {
                    lemma_array_view(*items);
                    lemma_well_formed_array(views(items@));
                }
                let mut i: usize = 0;
                while i < items.len()
                    invariant
                        i <= items.len(),
                        *self == RESPOutput::Array(*items),
                        self@ == Frame::Array(views(items@)),
                        well_formed(self@) <==> items.len() <= i64::MAX && (forall|j: int|
                            0 <= j < items.len() ==> well_formed(#[trigger] views(items@)[j])),
                        forall|j: int| 0 <= j < i ==> well_formed(#[trigger] views(items@)[j]),
                    decreases items.len() - i,
                {
                    assert(decreases_to!(*self => self->Array_0[i as int]));
                    if !items[i].is_well_formed() {
                        assert(!well_formed(views(items@)[i as int]));
                        return false;
                    }
                    i = i + 1;
                }
                true
            },
            _ => true,
        }
    }

    /// Appends the bytes that write the frame to `buf`.
    pub fn write_to(&self, buf: &mut Vec<u8>)
        ensures
            final(buf)@ == old(buf)@ + encode(self@),
        decreases self,
    {
        match self {
            RESPOutput::SimpleString(text) => write_line(buf, SIMPLE_STRING, text.as_slice()),
            RESPOutput::Error(text) => write_line(buf, ERROR, text.as_slice()),
            RESPOutput::Integer(value) => write_declared(buf, INTEGER, *value),
            RESPOutput::Double(text) => write_line(buf, DOUBLE, text.as_slice()),
            RESPOutput::Boolean(value) => {
                let text: [u8; 1] = [if *value { TRUE } else { FALSE }];
                write_line(buf, BOOLEAN, text.as_slice());
                assert(seq![BOOLEAN] + text@ + crlf() =~= encode(self@));
            },
            RESPOutput::Null => {
                let text: [u8; 0] = [];
                write_line(buf, NULL, text.as_slice());
                assert(seq![NULL] + text@ + crlf() =~= encode(self@));
            },
            RESPOutput::BulkString(bytes) => {
                write_count(buf, BULK_STRING, bytes.len());
                append(buf, bytes.as_slice());
                end_line(buf);
                assert(buf@ =~= old(buf)@ + encode(self@));
            },
            RESPOutput::NullBulkString => write_declared(buf, BULK_STRING, -1),
            RESPOutput::Array(items) => {
                write_count(buf, ARRAY, items.len());
                proof {
                    lemma_array_view(*items);
                }
                let ghost start = buf@;
                let mut i: usize = 0;
                while i < items.len()
                    invariant
                        i <= items.len(),
                        *self == RESPOutput::Array(*items),
                        buf@ == start + encode_all(views(items@), i as nat),
                    decreases items.len() - i,
                {
                    assert(decreases_to!(*self => self->Array_0[i as int]));
                    items[i].write_to(buf);
                    i = i + 1;
                }
                assert(buf@ =~= old(buf)@ + encode(self@));
            },
        }
    }

    /// The bytes that write the frame, where it can be written so that the
    /// decoder reads it again: `None` for a frame that is not well formed.
    pub fn encode(&self) -> (out: Option<Vec<u8>>)
        ensures
            match out {
                Some(bytes) => well_formed(self@) && bytes@ == encode(self@),
                None => !well_formed(self@),
            },
    {
        if self.is_well_formed() {
            let mut bytes: Vec<u8> = Vec::new();
            self.write_to(&mut bytes);
            assert(bytes@ =~= encode(self@));
            Some(bytes)
        } else {
            None
        }
    }
}

} // verus!

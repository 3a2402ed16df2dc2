//! What holds of the codec: the decoder reads only the bytes of the frame, a
//! frame cut short is incomplete, and a frame that was encoded is decoded as
//! itself.

use crate::parser::decimal::{
    decimal, digits_of, is_digit, lemma_decimal_value_of_decimal, lemma_digits_of, spec_parse_i64,
    MINUS, PLUS,
};
use crate::parser::{
    crlf, digits_end, is_decimal_number, decode, decode_array, decode_bulk_string, decode_frames, encode, encode_all,
    first_break, is_break, lemma_decode_array_bounds, lemma_decode_bounds,
    lemma_decode_frames_bounds, lemma_first_break, lemma_first_break_at, lemma_read_line,
    lemma_well_formed_array, no_breaks, read_line, scalar_of_line, well_formed, Frame,
    ParserError, ARRAY, BOOLEAN, BULK_STRING, CR, DOUBLE, ERROR, FALSE, INTEGER, LF, NULL,
    SIMPLE_STRING, TRUE,
};
use vstd::prelude::*;

verus! {

/// Reading a line looks at the line and its CR LF only: input that starts
/// with the same bytes starts with the same line.
pub proof fn lemma_read_line_local(s: Seq<u8>, t: Seq<u8>)
    requires
        read_line(s) is Ok,
        read_line(s)->Ok_0.1 <= t.len(),
        t.take(read_line(s)->Ok_0.1 as int) == s.take(read_line(s)->Ok_0.1 as int),
    ensures
        read_line(t) == read_line(s),
{
    lemma_first_break(s);
    let i = first_break(s) as int;
    let n = i + 2;
    assert forall|j: int| 0 <= j < n implies t[j] == s[j] by {
        assert(t.take(n)[j] == s.take(n)[j]);
    }
    assert forall|j: int| 0 <= j < i implies !is_break(#[trigger] t[j]) by {
        assert(s.take(i)[j] == s[j]);
    }
    lemma_first_break_at(t, i);
    assert(t.take(i) =~= s.take(i));
}

/// A line cut short, anywhere before the end of its CR LF, is incomplete.
pub proof fn lemma_read_line_prefix(s: Seq<u8>, i: int)
    requires
        read_line(s) is Ok,
        0 <= i < read_line(s)->Ok_0.1,
    ensures
        read_line(s.take(i)) == Err::<(Seq<u8>, nat), ParserError>(ParserError::Incomplete),
{
    lemma_first_break(s);
    let b = first_break(s) as int;
    let t = s.take(i);
    if i <= b {
        assert forall|j: int| 0 <= j < i implies !is_break(#[trigger] t[j]) by {
            assert(s.take(b)[j] == s[j]);
        }
        lemma_first_break_at(t, i);
    } else {
        assert forall|j: int| 0 <= j < b implies !is_break(#[trigger] t[j]) by {
            assert(s.take(b)[j] == s[j]);
        }
        lemma_first_break_at(t, b);
    }
}

/// A line without CR or LF, written with its CR LF, is read as itself,
/// whatever follows.
pub proof fn lemma_read_line_written(line: Seq<u8>, tail: Seq<u8>)
    requires
        no_breaks(line),
    ensures
        read_line(line + crlf() + tail) == Ok::<(Seq<u8>, nat), ParserError>(
            (line, line.len() + 2),
        ),
{
    let s = line + crlf() + tail;
    let i = line.len() as int;
    assert(s[i] == CR);
    assert(s[i + 1] == LF);
    assert forall|j: int| 0 <= j < i implies !is_break(#[trigger] s[j]) by {
        assert(s[j] == line[j]);
    }
    lemma_first_break_at(s, i);
    assert(s.take(i) =~= line);
}

/// Two byte strings that agree on their first `n` bytes agree, behind their
/// first `k` bytes, on the `n - k` bytes that follow.
pub proof fn lemma_agree_behind(s: Seq<u8>, t: Seq<u8>, n: int, k: int)
    requires
        0 <= k <= n,
        n <= s.len(),
        n <= t.len(),
        t.take(n) == s.take(n),
    ensures
        t.skip(k).take(n - k) == s.skip(k).take(n - k),
        t.take(k) == s.take(k),
{
    assert forall|j: int| 0 <= j < n implies t[j] == s[j] by {
        assert(t.take(n)[j] == t[j]);
        assert(s.take(n)[j] == s[j]);
    }
    assert(t.skip(k).take(n - k) =~= s.skip(k).take(n - k));
    assert(t.take(k) =~= s.take(k));
}

/// Decoding a bulk string looks only at the bytes that it takes.
pub proof fn lemma_decode_bulk_string_local(s: Seq<u8>, t: Seq<u8>)
    requires
        decode_bulk_string(s) is Ok,
        decode_bulk_string(s)->Ok_0.1 <= t.len(),
        t.take(decode_bulk_string(s)->Ok_0.1 as int) == s.take(
            decode_bulk_string(s)->Ok_0.1 as int,
        ),
    ensures
        decode_bulk_string(t) == decode_bulk_string(s),
{
    lemma_read_line(s);
    let n = decode_bulk_string(s)->Ok_0.1 as int;
    let (line, k) = read_line(s)->Ok_0;
    lemma_agree_behind(s, t, n, k as int);
    lemma_read_line_local(s, t);
    let declared = spec_parse_i64(line)->Some_0;
    if declared >= 0 {
        assert forall|j: int| 0 <= j < n implies t[j] == s[j] by {
            assert(t.take(n)[j] == s.take(n)[j]);
        }
        assert(t.subrange(k as int, k + declared) =~= s.subrange(k as int, k + declared));
    }
}

/// Decoding looks only at the bytes that the frame takes: input that starts
/// with the same bytes starts with the same frame.
pub proof fn lemma_decode_local(s: Seq<u8>, t: Seq<u8>)
    requires
        decode(s) is Ok,
        decode(s)->Ok_0.1 <= t.len(),
        t.take(decode(s)->Ok_0.1 as int) == s.take(decode(s)->Ok_0.1 as int),
    ensures
        decode(t) == decode(s),
    decreases s.len(), 0nat,
{
    lemma_decode_bounds(s);
    let n = decode(s)->Ok_0.1 as int;
    assert(t[0] == s[0]) by {
        assert(t.take(n)[0] == s.take(n)[0]);
    }
    lemma_agree_behind(s, t, n, 1);
    if s[0] == ARRAY {
        lemma_decode_array_local(s.skip(1), t.skip(1));
    } else if s[0] == BULK_STRING {
        lemma_decode_bulk_string_local(s.skip(1), t.skip(1));
    } else {
        lemma_read_line_local(s.skip(1), t.skip(1));
    }
}

/// Decoding an array looks only at the bytes that it takes.
pub proof fn lemma_decode_array_local(s: Seq<u8>, t: Seq<u8>)
    requires
        decode_array(s) is Ok,
        decode_array(s)->Ok_0.1 <= t.len(),
        t.take(decode_array(s)->Ok_0.1 as int) == s.take(decode_array(s)->Ok_0.1 as int),
    ensures
        decode_array(t) == decode_array(s),
    decreases s.len(), 0nat,
{
    lemma_read_line(s);
    lemma_decode_array_bounds(s);
    let n = decode_array(s)->Ok_0.1 as int;
    let (line, k) = read_line(s)->Ok_0;
    let count = spec_parse_i64(line)->Some_0;
    lemma_agree_behind(s, t, n, k as int);
    lemma_read_line_local(s, t);
    lemma_decode_frames_local(s.skip(k as int), t.skip(k as int), count as nat);
}

/// Decoding some frames looks only at the bytes that they take.
pub proof fn lemma_decode_frames_local(s: Seq<u8>, t: Seq<u8>, count: nat)
    requires
        decode_frames(s, count) is Ok,
        decode_frames(s, count)->Ok_0.1 <= t.len(),
        t.take(decode_frames(s, count)->Ok_0.1 as int) == s.take(
            decode_frames(s, count)->Ok_0.1 as int,
        ),
    ensures
        decode_frames(t, count) == decode_frames(s, count),
    decreases s.len(), count,
{
    if count > 0 {
        lemma_decode_frames_bounds(s, count);
        lemma_decode_frames_bounds(s, (count - 1) as nat);
        let total = decode_frames(s, count)->Ok_0.1 as int;
        let before = decode_frames(s, (count - 1) as nat)->Ok_0.1 as int;
        lemma_decode_bounds(s.skip(before));
        lemma_agree_behind(s, t, total, before);
        lemma_decode_frames_local(s, t, (count - 1) as nat);
        lemma_decode_local(s.skip(before), t.skip(before));
    }
}

/// A bulk string cut short is incomplete.
pub proof fn lemma_decode_bulk_string_prefix(s: Seq<u8>, i: int)
    requires
        decode_bulk_string(s) is Ok,
        0 <= i < decode_bulk_string(s)->Ok_0.1,
    ensures
        decode_bulk_string(s.take(i)) == Err::<(Frame, nat), ParserError>(ParserError::Incomplete),
{
    lemma_read_line(s);
    let (line, k) = read_line(s)->Ok_0;
    if i < k {
        lemma_read_line_prefix(s, i);
    } else {
        assert(s.take(i).take(k as int) =~= s.take(k as int));
        lemma_read_line_local(s, s.take(i));
    }
}

/// The law of partial input: of the bytes that a frame takes, every proper
/// prefix is `Incomplete`, so that a reader who got a part of a frame is
/// told to read on and never gets a wrong frame or another error.
pub proof fn lemma_decode_prefix(s: Seq<u8>, i: int)
    requires
        decode(s) is Ok,
        0 <= i < decode(s)->Ok_0.1,
    ensures
        decode(s.take(i)) == Err::<(Frame, nat), ParserError>(ParserError::Incomplete),
    decreases s.len(), 0nat,
{
    lemma_decode_bounds(s);
    if i > 0 {
        let t = s.take(i);
        assert(t[0] == s[0]);
        assert(t.skip(1) =~= s.skip(1).take(i - 1));
        if s[0] == ARRAY {
            lemma_decode_array_prefix(s.skip(1), i - 1);
        } else if s[0] == BULK_STRING {
            lemma_decode_bulk_string_prefix(s.skip(1), i - 1);
        } else {
            lemma_read_line_prefix(s.skip(1), i - 1);
        }
    }
}

/// An array cut short is incomplete.
pub proof fn lemma_decode_array_prefix(s: Seq<u8>, i: int)
    requires
        decode_array(s) is Ok,
        0 <= i < decode_array(s)->Ok_0.1,
    ensures
        decode_array(s.take(i)) == Err::<(Frame, nat), ParserError>(ParserError::Incomplete),
    decreases s.len(), 0nat,
{
    lemma_read_line(s);
    lemma_decode_array_bounds(s);
    let (line, k) = read_line(s)->Ok_0;
    let count = spec_parse_i64(line)->Some_0;
    if i < k {
        lemma_read_line_prefix(s, i);
    } else {
        assert(s.take(i).take(k as int) =~= s.take(k as int));
        lemma_read_line_local(s, s.take(i));
        assert(s.take(i).skip(k as int) =~= s.skip(k as int).take(i - k));
        lemma_decode_frames_prefix(s.skip(k as int), i - k, count as nat);
    }
}

/// Some frames cut short are incomplete.
pub proof fn lemma_decode_frames_prefix(s: Seq<u8>, i: int, count: nat)
    requires
        decode_frames(s, count) is Ok,
        0 <= i < decode_frames(s, count)->Ok_0.1,
    ensures
        decode_frames(s.take(i), count) == Err::<(Seq<Frame>, nat), ParserError>(
            ParserError::Incomplete,
        ),
    decreases s.len(), count,
{
    if count > 0 {
        lemma_decode_frames_bounds(s, count);
        lemma_decode_frames_bounds(s, (count - 1) as nat);
        let before = decode_frames(s, (count - 1) as nat)->Ok_0.1 as int;
        lemma_decode_bounds(s.skip(before));
        if i < before {
            lemma_decode_frames_prefix(s, i, (count - 1) as nat);
        } else {
            assert(s.take(i).take(before) =~= s.take(before));
            lemma_decode_frames_local(s, s.take(i), (count - 1) as nat);
            assert(s.take(i).skip(before) =~= s.skip(before).take(i - before));
            lemma_decode_prefix(s.skip(before), i - before);
        }
    }
}

/// What the decoder gives out is well formed.
pub proof fn lemma_decode_well_formed(s: Seq<u8>)
    ensures
        decode(s) matches Ok((frame, _)) ==> well_formed(frame),
    decreases s.len(), 0nat,
{
    if s.len() > 0 {
        lemma_read_line(s.skip(1));
        if s[0] == ARRAY {
            lemma_decode_array_well_formed(s.skip(1));
        }
    }
}

/// An array that the decoder gives out is well formed.
pub proof fn lemma_decode_array_well_formed(payload: Seq<u8>)
    ensures
        decode_array(payload) matches Ok((frame, _)) ==> well_formed(frame),
    decreases payload.len(), 0nat,
{
    lemma_read_line(payload);
    if let Ok((line, n)) = read_line(payload) {
        if let Some(count) = spec_parse_i64(line) {
            if count >= 0 {
                let rest = payload.skip(n as int);
                lemma_decode_frames_well_formed(rest, count as nat);
                lemma_decode_frames_bounds(rest, count as nat);
                if let Ok((items, _)) = decode_frames(rest, count as nat) {
                    lemma_well_formed_array(items);
                }
            }
        }
    }
}

/// The frames that the decoder gives out are well formed.
pub proof fn lemma_decode_frames_well_formed(s: Seq<u8>, count: nat)
    ensures
        decode_frames(s, count) matches Ok((items, _)) ==> forall|i: int|
            0 <= i < items.len() ==> well_formed(#[trigger] items[i]),
    decreases s.len(), count,
{
    if count > 0 {
        lemma_decode_frames_well_formed(s, (count - 1) as nat);
        lemma_decode_frames_bounds(s, (count - 1) as nat);
        if let Ok((items, m)) = decode_frames(s, (count - 1) as nat) {
            lemma_decode_well_formed(s.skip(m as int));
        }
    }
}

/// The canonical text of an integer holds no CR or LF.
pub proof fn lemma_decimal_no_breaks(v: int)
    ensures
        no_breaks(decimal(v)),
{
    let n = if v < 0 {
        (-v) as nat
    } else {
        v as nat
    };
    lemma_digits_of(n);
    let d = digits_of(n);
    assert forall|i: int| 0 <= i < decimal(v).len() implies !is_break(#[trigger] decimal(v)[i]) by {
        if v < 0 {
            if i > 0 {
                assert(is_digit(d[i - 1]));
            }
        } else {
            assert(is_digit(d[i]));
        }
    }
}

/// The run of digits that starts at `from` holds digits only and ends where
/// `digits_end` says.
pub proof fn lemma_digits_end(s: Seq<u8>, from: int)
    requires
        0 <= from <= s.len(),
    ensures
        from <= digits_end(s, from) <= s.len(),
        forall|i: int| from <= i < digits_end(s, from) ==> is_digit(#[trigger] s[i]),
    decreases s.len() - from,
{
    if from < s.len() && is_digit(s[from]) {
        lemma_digits_end(s, from + 1);
    }
}

/// The text of a decimal number holds no CR or LF.
pub proof fn lemma_decimal_number_no_breaks(s: Seq<u8>)
    requires
        is_decimal_number(s),
    ensures
        no_breaks(s),
{
    let start: int = if s.len() > 0 && (s[0] == PLUS || s[0] == MINUS) {
        1
    } else {
        0
    };
    lemma_digits_end(s, start);
    let whole = digits_end(s, start);
    if whole < s.len() {
        lemma_digits_end(s, whole + 1);
    }
}

/// A line without CR or LF, written behind the prefix of a scalar kind, is
/// decoded as the frame that the line stands for.
pub proof fn lemma_decode_scalar_written(prefix: u8, text: Seq<u8>, tail: Seq<u8>)
    requires
        no_breaks(text),
        prefix == SIMPLE_STRING || prefix == ERROR || prefix == INTEGER || prefix == DOUBLE
            || prefix == BOOLEAN || prefix == NULL,
    ensures
        decode(seq![prefix] + text + crlf() + tail) == match scalar_of_line(prefix, text) {
            Ok(frame) => Ok::<(Frame, nat), ParserError>((frame, text.len() + 3)),
            Err(e) => Err(e),
        },
{
    let s = seq![prefix] + text + crlf() + tail;
    assert(s[0] == prefix);
    assert(s.skip(1) =~= text + crlf() + tail);
    lemma_read_line_written(text, tail);
}

/// The payload of a bulk string, written and followed by anything, is
/// decoded as the bulk string.
pub proof fn lemma_decode_bulk_string_payload(bytes: Seq<u8>, tail: Seq<u8>)
    requires
        bytes.len() <= i64::MAX,
    ensures
        decode_bulk_string(decimal(bytes.len() as int) + crlf() + (bytes + crlf() + tail)) == Ok::<
            (Frame, nat),
            ParserError,
        >((Frame::BulkString(bytes), decimal(bytes.len() as int).len() + 2 + bytes.len() + 2)),
{
    let text = decimal(bytes.len() as int);
    let behind = bytes + crlf() + tail;
    let payload = text + crlf() + behind;
    lemma_declared_line(bytes.len() as int, behind);
    let n = text.len() as int + 2;
    let end = n + bytes.len() as int;
    assert(payload.subrange(n, end) =~= bytes);
    assert(payload[end] == CR);
    assert(payload[end + 1] == LF);
}

/// A bulk string of a length that can be declared, written and followed by
/// anything, is decoded as itself.
pub proof fn lemma_decode_bulk_string_written(bytes: Seq<u8>, tail: Seq<u8>)
    requires
        bytes.len() <= i64::MAX,
    ensures
        decode(encode(Frame::BulkString(bytes)) + tail) == Ok::<(Frame, nat), ParserError>(
            (Frame::BulkString(bytes), encode(Frame::BulkString(bytes)).len()),
        ),
{
    let text = decimal(bytes.len() as int);
    let s = encode(Frame::BulkString(bytes)) + tail;
    lemma_decode_bulk_string_payload(bytes, tail);
    assert(s =~= seq![BULK_STRING] + text + crlf() + (bytes + crlf()) + tail);
    lemma_payload_behind_prefix(BULK_STRING, text, bytes + crlf(), tail);
    assert(bytes + crlf() + tail =~= (bytes + crlf()) + tail);
}

/// The null bulk string, written and followed by anything, is decoded as
/// itself.
pub proof fn lemma_decode_null_bulk_string_written(tail: Seq<u8>)
    ensures
        decode(encode(Frame::NullBulkString) + tail) == Ok::<(Frame, nat), ParserError>(
            (Frame::NullBulkString, encode(Frame::NullBulkString).len()),
        ),
{
    let s = encode(Frame::NullBulkString) + tail;
    let text = decimal(-1);
    let payload = s.skip(1);
    assert(s[0] == BULK_STRING);
    assert(payload =~= text + crlf() + tail);
    lemma_decimal_no_breaks(-1);
    lemma_decimal_value_of_decimal(-1);
    lemma_read_line_written(text, tail);
    assert(read_line(payload) == Ok::<(Seq<u8>, nat), ParserError>(
        (text, (text.len() + 2) as nat),
    ));
    assert(spec_parse_i64(text) == Some(-1i64));
}

/// The round trip: a well-formed frame, written and followed by anything,
/// is decoded as itself, and the decoder takes the bytes that write it and no
/// more.
pub proof fn lemma_decode_encoded(frame: Frame, tail: Seq<u8>)
    requires
        well_formed(frame),
    ensures
        decode(encode(frame) + tail) == Ok::<(Frame, nat), ParserError>(
            (frame, encode(frame).len()),
        ),
    decreases frame, 0nat,
{
    match frame {
        Frame::SimpleString(text) => {
            lemma_decode_scalar_written(SIMPLE_STRING, text, tail);
        },
        Frame::Error(text) => {
            lemma_decode_scalar_written(ERROR, text, tail);
        },
        Frame::Integer(value) => {
            lemma_decimal_no_breaks(value as int);
            lemma_decimal_value_of_decimal(value as int);
            lemma_decode_scalar_written(INTEGER, decimal(value as int), tail);
        },
        Frame::Double(text) => {
            lemma_decimal_number_no_breaks(text);
            lemma_decode_scalar_written(DOUBLE, text, tail);
        },
        Frame::Boolean(value) => {
            let text = seq![if value { TRUE } else { FALSE }];
            assert(encode(frame) =~= seq![BOOLEAN] + text + crlf());
            lemma_decode_scalar_written(BOOLEAN, text, tail);
        },
        Frame::Null => {
            let text = Seq::<u8>::empty();
            assert(encode(frame) =~= seq![NULL] + text + crlf());
            lemma_decode_scalar_written(NULL, text, tail);
        },
        Frame::BulkString(bytes) => {
            lemma_decode_bulk_string_written(bytes, tail);
        },
        Frame::NullBulkString => {
            lemma_decode_null_bulk_string_written(tail);
        },
        Frame::Array(items) => {
            lemma_well_formed_array(items);
            assert(frame->Array_0 == items);
            lemma_decode_frames_encoded(items, items.len(), tail);
            assert(items.take(items.len() as int) =~= items);
            lemma_decode_array_written(items, encode_all(items, items.len()), tail);
        },
    }
}

/// The round trip, for the bytes of a frame and nothing behind them: a frame
/// that the decoder gives out, encoded, is decoded as itself, and no input
/// is left.
pub proof fn lemma_round_trip(frame: Frame)
    requires
        well_formed(frame),
    ensures
        decode(encode(frame)) == Ok::<(Frame, nat), ParserError>((frame, encode(frame).len())),
        encode(frame).skip(encode(frame).len() as int) == Seq::<u8>::empty(),
{
    lemma_decode_encoded(frame, Seq::empty());
    assert(encode(frame) + Seq::<u8>::empty() =~= encode(frame));
    assert(encode(frame).skip(encode(frame).len() as int) =~= Seq::<u8>::empty());
}

/// The frames that the decoder gives out are the well-formed frames, all of
/// them and no others.
pub proof fn lemma_decoder_gives_out(frame: Frame)
    ensures
        well_formed(frame) <==> exists|s: Seq<u8>|
            #[trigger] decode(s) is Ok && decode(s)->Ok_0.0 == frame,
{
    if well_formed(frame) {
        lemma_round_trip(frame);
        assert(decode(encode(frame)) is Ok && decode(encode(frame))->Ok_0.0 == frame);
    }
    if exists|s: Seq<u8>| #[trigger] decode(s) is Ok && decode(s)->Ok_0.0 == frame {
        let s = choose|s: Seq<u8>| #[trigger] decode(s) is Ok && decode(s)->Ok_0.0 == frame;
        lemma_decode_well_formed(s);
    }
}

/// How an array is decoded from its count and its items.
pub proof fn lemma_decode_array_of_items(
    payload: Seq<u8>,
    text: Seq<u8>,
    n: nat,
    count: i64,
    items: Seq<Frame>,
    m: nat,
)
    requires
        read_line(payload) == Ok::<(Seq<u8>, nat), ParserError>((text, n)),
        spec_parse_i64(text) == Some(count),
        count >= 0,
        decode_frames(payload.skip(n as int), count as nat) == Ok::<
            (Seq<Frame>, nat),
            ParserError,
        >((items, m)),
    ensures
        decode_array(payload) == Ok::<(Frame, nat), ParserError>((Frame::Array(items), n + m)),
{
}

/// How a frame that starts with `*` is decoded from its payload.
pub proof fn lemma_decode_of_array(s: Seq<u8>, payload: Seq<u8>, frame: Frame, n: nat)
    requires
        s.len() > 0,
        s[0] == ARRAY,
        payload == s.skip(1),
        decode_array(payload) == Ok::<(Frame, nat), ParserError>((frame, n)),
    ensures
        decode(s) == Ok::<(Frame, nat), ParserError>((frame, n + 1)),
{
}

/// A length or a count that can be declared, written on a line, is read as
/// that line and as itself, whatever stands behind the line.
pub proof fn lemma_declared_line(declared: int, behind: Seq<u8>)
    requires
        -1 <= declared <= i64::MAX,
    ensures
        read_line(decimal(declared) + crlf() + behind) == Ok::<(Seq<u8>, nat), ParserError>(
            (decimal(declared), decimal(declared).len() + 2),
        ),
        spec_parse_i64(decimal(declared)) == Some(declared as i64),
        (decimal(declared) + crlf() + behind).skip(decimal(declared).len() + 2 as int) == behind,
{
    let text = decimal(declared);
    lemma_decimal_no_breaks(declared);
    lemma_decimal_value_of_decimal(declared);
    lemma_read_line_written(text, behind);
    assert((text + crlf() + behind).skip(text.len() + 2 as int) =~= behind);
}

/// The payload of an array: the count on a line, and `written`, which
/// stands for the items. Where `written`, followed by `tail`, is decoded as
/// the items, the payload is decoded as the array.
pub proof fn lemma_decode_array_payload(items: Seq<Frame>, written: Seq<u8>, tail: Seq<u8>)
    requires
        items.len() <= i64::MAX,
        decode_frames(written + tail, items.len()) == Ok::<(Seq<Frame>, nat), ParserError>(
            (items, written.len()),
        ),
    ensures
        decode_array(decimal(items.len() as int) + crlf() + (written + tail)) == Ok::<
            (Frame, nat),
            ParserError,
        >((Frame::Array(items), decimal(items.len() as int).len() + 2 + written.len())),
{
    let text = decimal(items.len() as int);
    let payload = text + crlf() + (written + tail);
    let n = text.len() + 2;
    lemma_declared_line(items.len() as int, written + tail);
    lemma_decode_array_of_items(payload, text, n, items.len() as i64, items, written.len());
}

/// A payload behind a prefix is what stands behind the first byte.
pub proof fn lemma_payload_behind_prefix(
    prefix: u8,
    text: Seq<u8>,
    written: Seq<u8>,
    tail: Seq<u8>,
)
    ensures
        (seq![prefix] + text + crlf() + written + tail).skip(1) == text + crlf() + (written
            + tail),
        (seq![prefix] + text + crlf() + written + tail)[0] == prefix,
{
    let s = seq![prefix] + text + crlf() + written + tail;
    assert(s.skip(1) =~= text + crlf() + (written + tail));
}

/// The bytes of an array: `*`, the count on a line, and `written`, which
/// stands for the items. Where `written`, followed by `tail`, is decoded as
/// the items, the bytes are decoded as the array.
pub proof fn lemma_decode_array_written(items: Seq<Frame>, written: Seq<u8>, tail: Seq<u8>)
    requires
        items.len() <= i64::MAX,
        decode_frames(written + tail, items.len()) == Ok::<(Seq<Frame>, nat), ParserError>(
            (items, written.len()),
        ),
    ensures
        decode(seq![ARRAY] + decimal(items.len() as int) + crlf() + written + tail) == Ok::<
            (Frame, nat),
            ParserError,
        >((Frame::Array(items), 3 + decimal(items.len() as int).len() + written.len())),
{
    let text = decimal(items.len() as int);
    lemma_decode_array_payload(items, written, tail);
    lemma_payload_behind_prefix(ARRAY, text, written, tail);
    lemma_decode_of_array(
        seq![ARRAY] + text + crlf() + written + tail,
        text + crlf() + (written + tail),
        Frame::Array(items),
        text.len() + 2 + written.len(),
    );
}

/// The first `count` of some well-formed frames, written one after the
/// other and followed by anything, are decoded as themselves.
pub proof fn lemma_decode_frames_encoded(items: Seq<Frame>, count: nat, tail: Seq<u8>)
    requires
        count <= items.len(),
        forall|i: int| 0 <= i < items.len() ==> well_formed(#[trigger] items[i]),
    ensures
        decode_frames(encode_all(items, count) + tail, count) == Ok::<
            (Seq<Frame>, nat),
            ParserError,
        >((items.take(count as int), encode_all(items, count).len())),
    decreases items, count,
{
    let s = encode_all(items, count) + tail;
    if count == 0 {
        assert(items.take(0) =~= Seq::<Frame>::empty());
    } else {
        let before = encode_all(items, (count - 1) as nat);
        let last = encode(items[count - 1]);
        assert(s =~= before + (last + tail));
        lemma_decode_frames_encoded(items, (count - 1) as nat, last + tail);
        assert(s.skip(before.len() as int) =~= last + tail);
        lemma_decode_encoded(items[count - 1], tail);
        assert(items.take(count - 1).push(items[count - 1]) =~= items.take(count as int));
    }
}

/// `s` ends with CR LF.
pub open spec fn ends_with_crlf(s: Seq<u8>) -> bool {
    s.len() >= 2 && s[s.len() - 2] == CR && s[s.len() - 1] == LF
}

/// Bytes with CR LF written behind them end with CR LF.
proof fn lemma_line_ends_with_crlf(head: Seq<u8>)
    ensures
        ends_with_crlf(head + crlf()),
{
    let s = head + crlf();
    assert(s[s.len() - 2] == crlf()[0]);
    assert(s[s.len() - 1] == crlf()[1]);
}

/// The bytes that write a frame end with CR LF, whatever the frame.
pub proof fn lemma_encoded_ends_with_crlf(frame: Frame)
    ensures
        ends_with_crlf(encode(frame)),
    decreases frame, 0nat,
{
    match frame {
        Frame::Array(items) => {
            assert(frame->Array_0 == items);
            lemma_encoded_all_end_with_crlf(items, items.len());
            let head = seq![ARRAY] + decimal(items.len() as int) + crlf();
            let written = encode_all(items, items.len());
            lemma_line_ends_with_crlf(seq![ARRAY] + decimal(items.len() as int));
            let s = head + written;
            if written.len() == 0 {
                assert(s =~= head);
            } else {
                assert(s[s.len() - 2] == written[written.len() - 2]);
                assert(s[s.len() - 1] == written[written.len() - 1]);
            }
        },
        Frame::SimpleString(text) => lemma_line_ends_with_crlf(seq![SIMPLE_STRING] + text),
        Frame::Error(text) => lemma_line_ends_with_crlf(seq![ERROR] + text),
        Frame::Integer(value) => lemma_line_ends_with_crlf(seq![INTEGER] + decimal(value as int)),
        Frame::Double(text) => lemma_line_ends_with_crlf(seq![DOUBLE] + text),
        Frame::Boolean(value) => lemma_line_ends_with_crlf(
            seq![BOOLEAN, if value { TRUE } else { FALSE }],
        ),
        Frame::Null => lemma_line_ends_with_crlf(seq![NULL]),
        Frame::BulkString(bytes) => lemma_line_ends_with_crlf(
            seq![BULK_STRING] + decimal(bytes.len() as int) + crlf() + bytes,
        ),
        Frame::NullBulkString => lemma_line_ends_with_crlf(seq![BULK_STRING] + decimal(-1)),
    }
}

/// The bytes that write some frames, one after the other, are none or end
/// with CR LF.
pub proof fn lemma_encoded_all_end_with_crlf(items: Seq<Frame>, count: nat)
    ensures
        encode_all(items, count).len() == 0 || ends_with_crlf(encode_all(items, count)),
    decreases items, count,
{
    if count > 0 && count <= items.len() {
        lemma_encoded_ends_with_crlf(items[count - 1]);
        let before = encode_all(items, (count - 1) as nat);
        let last = encode(items[count - 1]);
        let s = before + last;
        assert(s[s.len() - 2] == last[last.len() - 2]);
        assert(s[s.len() - 1] == last[last.len() - 1]);
    }
}

} // verus!

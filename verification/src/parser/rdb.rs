//! The reader of the snapshot format.
//!
//! A snapshot is the magic `REDIS`, four digits of version, and a stream of
//! items, each led by one byte: an opcode, or the type of a value, which
//! leads an entry. Integers of more than one byte are big-endian.
//!
//! The reader works on the bytes of the whole snapshot and keeps its place in
//! them. Where an item cannot be read the reader stays where the item
//! starts.

use crate::parser::decimal::decimal;
use crate::store::datatype::integer_text;
use vstd::prelude::*;

verus! {

/// The version of the format that the reader accepts: `0011`.
pub const RDB_VERSION: u32 = 11;

/// The type of a string value.
pub const RDB_TYPE_STRING: u8 = 0;

/// The type of a list value.
pub const RDB_TYPE_LIST: u8 = 1;

/// The type of a set value.
pub const RDB_TYPE_SET: u8 = 2;

/// The type of a sorted set value.
pub const RDB_TYPE_ZSET: u8 = 3;

/// The type of a hash value.
pub const RDB_TYPE_HASH: u8 = 4;

/// The opcode that ends the snapshot.
pub const RDB_OPCODE_EOF: u8 = 0xFF;

/// The opcode that selects a database.
pub const RDB_OPCODE_SELECTDB: u8 = 0xFE;

/// The opcode that gives the next entry a deadline in seconds.
pub const RDB_OPCODE_EXPIRETIME: u8 = 0xFD;

/// The opcode that gives the next entry a deadline in milliseconds.
pub const RDB_OPCODE_EXPIRETIME_MS: u8 = 0xFC;

/// The opcode that leads the sizes of a database's tables.
pub const RDB_OPCODE_RESIZEDB: u8 = 0xFB;

/// The opcode that leads an auxiliary field.
pub const RDB_OPCODE_AUX: u8 = 0xFA;

/// Why a snapshot cannot be read.
#[derive(Debug, Clone, Copy, PartialEq, Eq, Structural)]
pub enum RDBError {
    /// The bytes end inside an item.
    IoError,
    /// The snapshot does not start with `REDIS`.
    InvalidMagicString,
    /// The version is not `0011`.
    UnsupportedVersion,
    /// A length is written in a special form that is not known.
    InvalidLength,
    /// An entry is led by a byte that is neither an opcode nor the type of a
    /// value.
    InvalidType,
}

/// An instant of the calendar: the time since the Unix epoch, in seconds and
/// the nanoseconds of the second that has begun.
#[derive(Debug, Clone, Copy, PartialEq, Eq, Structural)]
pub struct Timestamp {
    /// The whole seconds since the epoch.
    pub secs: u64,
    /// The nanoseconds behind them, fewer than a second's.
    pub nanos: u32,
}

/// The value of an entry. Values of every type are held as strings of bytes.
#[derive(Debug, PartialEq, Eq)]
pub enum RDBValue {
    /// A string of bytes of any content.
    String(Vec<u8>),
}

impl View for RDBValue {
    type V = Seq<u8>;

    /// The bytes of the value.
    open spec fn view(&self) -> Seq<u8> {
        match self {
            RDBValue::String(bytes) => bytes@,
        }
    }
}

/// An entry of a snapshot, as a mathematical value.
pub struct EntryView {
    /// The key.
    pub key: Seq<u8>,
    /// The bytes of the value.
    pub value: Seq<u8>,
    /// The deadline, where the entry has one.
    pub expiry: Option<Timestamp>,
}

/// An entry of a snapshot.
#[derive(Debug, PartialEq, Eq)]
pub struct RDBEntry {
    /// The key.
    pub key: Vec<u8>,
    /// The value.
    pub value: RDBValue,
    /// The deadline, where the entry has one.
    pub expiry: Option<Timestamp>,
}

impl View for RDBEntry {
    type V = EntryView;

    open spec fn view(&self) -> EntryView {
        EntryView { key: self.key@, value: self.value@, expiry: self.expiry }
    }
}

/// The magic that a snapshot starts with: `REDIS`.
pub open spec fn magic() -> Seq<u8> {
    seq![82u8, 69u8, 68u8, 73u8, 83u8]
}

/// The version that the reader accepts, as it is written: `0011`.
pub open spec fn version_text() -> Seq<u8> {
    seq![48u8, 48u8, 49u8, 49u8]
}

/// The unsigned number that the `count` bytes at `at` write, big-endian.
pub open spec fn be_value(s: Seq<u8>, at: int, count: nat) -> nat
    decreases count,
{
    if count == 0 {
        0
    } else {
        be_value(s, at, (count - 1) as nat) * 256 + s[at + count - 1] as nat
    }
}

/// The number `value` of `count` bytes, read as signed in two's complement.
pub open spec fn as_signed(value: nat, count: nat) -> int {
    if count == 1 && value >= 0x80 {
        value - 0x100
    } else if count == 2 && value >= 0x8000 {
        value - 0x1_0000
    } else if count == 4 && value >= 0x8000_0000 {
        value - 0x1_0000_0000
    } else {
        value as int
    }
}

/// The place behind the header that starts at `at`.
///
/// The magic is read first: bytes that end before it does are an `IoError`,
/// and five bytes that are not `REDIS` an `InvalidMagicString`. Then the
/// version: an `IoError` again where the bytes end, and an
/// `UnsupportedVersion` for four bytes that are not `0011`.
pub open spec fn header_at(s: Seq<u8>, at: int) -> Result<int, RDBError> {
    if s.len() - at < 5 {
        Err(RDBError::IoError)
    } else if s.subrange(at, at + 5) != magic() {
        Err(RDBError::InvalidMagicString)
    } else if s.len() - at < 9 {
        Err(RDBError::IoError)
    } else if s.subrange(at + 5, at + 9) != version_text() {
        Err(RDBError::UnsupportedVersion)
    } else {
        Ok(at + 9)
    }
}

/// The unsigned number of `count` bytes at `at`, and the place behind it;
/// an `IoError` where the bytes end before it does.
pub open spec fn number_at(s: Seq<u8>, at: int, count: nat) -> Result<(nat, int), RDBError> {
    if s.len() - at < count {
        Err(RDBError::IoError)
    } else {
        Ok((be_value(s, at, count), at + count))
    }
}

/// The length that is written at `at`, and the place behind it.
///
/// The two high bits of the first byte tell the form. `00`: the length is
/// the six low bits. `01`: the six low bits and the next byte, fourteen bits.
/// `10`: the next four bytes. `11`: a special form that the six low bits
/// name, `0`, `1` or `2` for an integer of one, two or four bytes, which is
/// taken as an unsigned length; any other name is an `InvalidLength`.
pub open spec fn length_at(s: Seq<u8>, at: int) -> Result<(nat, int), RDBError> {
    if s.len() - at < 1 {
        Err(RDBError::IoError)
    } else {
        let first = s[at];
        let form = first / 64;
        let low = (first % 64) as nat;
        if form == 0 {
            Ok((low, at + 1))
        } else if form == 1 {
            match number_at(s, at + 1, 1) {
                Ok((next, end)) => Ok((low * 256 + next, end)),
                Err(e) => Err(e),
            }
        } else if form == 2 {
            number_at(s, at + 1, 4)
        } else if low == 0 {
            number_at(s, at + 1, 1)
        } else if low == 1 {
            number_at(s, at + 1, 2)
        } else if low == 2 {
            number_at(s, at + 1, 4)
        } else {
            Err(RDBError::InvalidLength)
        }
    }
}

/// The text of the signed integer of `count` bytes at `at`, and the place
/// behind it.
pub open spec fn integer_string_at(s: Seq<u8>, at: int, count: nat) -> Result<
    (Seq<u8>, int),
    RDBError,
> {
    match number_at(s, at, count) {
        Ok((value, end)) => Ok((decimal(as_signed(value, count)), end)),
        Err(e) => Err(e),
    }
}

/// The string that is written at `at`, and the place behind it.
///
/// The first bytes `0xC0`, `0xC1` and `0xC2` lead a signed integer of one,
/// two and four bytes, and the string is its decimal text. Any other first
/// byte starts a length, and that many bytes follow.
pub open spec fn string_at(s: Seq<u8>, at: int) -> Result<(Seq<u8>, int), RDBError> {
    if s.len() - at < 1 {
        Err(RDBError::IoError)
    } else if s[at] == 0xC0 {
        integer_string_at(s, at + 1, 1)
    } else if s[at] == 0xC1 {
        integer_string_at(s, at + 1, 2)
    } else if s[at] == 0xC2 {
        integer_string_at(s, at + 1, 4)
    } else {
        match length_at(s, at) {
            Err(e) => Err(e),
            Ok((length, start)) => if s.len() - start < length {
                Err(RDBError::IoError)
            } else {
                Ok((s.subrange(start, start + length), start + length))
            },
        }
    }
}

/// The deadline that the opcode `opcode` and the number `stamp` give: so
/// many seconds since the Unix epoch, or so many milliseconds.
pub open spec fn deadline_of(opcode: u8, stamp: nat) -> Timestamp {
    if opcode == RDB_OPCODE_EXPIRETIME {
        Timestamp { secs: stamp as u64, nanos: 0 }
    } else {
        Timestamp { secs: (stamp / 1000) as u64, nanos: ((stamp % 1000) * 1_000_000) as u32 }
    }
}

/// What reading at `at` gives: the next entry, or none at the end of the
/// snapshot; the place behind what was read; and the database that is
/// selected there.
pub type Advance = Result<(Option<EntryView>, int, u8), RDBError>;

/// The next entry from `at` on, for a reader that has the database `db`
/// selected and, in `pending`, the deadline that an opcode before `at` gave.
///
/// The end of the bytes where an opcode is due ends the snapshot as the
/// opcode for it does. The opcodes that lead no entry are read and passed.
/// A deadline goes to the next entry; where several come before an entry the
/// first one counts, and one that no entry follows is dropped. An entry is
/// the byte of its type, its key and, for a string, its value; the other
/// known types give an empty value and no byte behind the key is read for
/// them; an unknown type is an `InvalidType`, once the key was read.
pub open spec fn entry_at(s: Seq<u8>, at: int, db: u8, pending: Option<Timestamp>) -> Advance
    decreases s.len() - at,
{
    if at < 0 || s.len() - at < 1 {
        Ok((None, at, db))
    } else {
        let opcode = s[at];
        if opcode == RDB_OPCODE_EOF {
            Ok((None, at + 1, db))
        } else if opcode == RDB_OPCODE_SELECTDB {
            match length_at(s, at + 1) {
                Err(e) => Err(e),
                Ok((number, next)) => entry_at(s, next, (number % 256) as u8, pending),
            }
        } else if opcode == RDB_OPCODE_EXPIRETIME || opcode == RDB_OPCODE_EXPIRETIME_MS {
            match number_at(s, at + 1, 8) {
                Err(e) => Err(e),
                Ok((stamp, next)) => entry_at(
                    s,
                    next,
                    db,
                    if pending is Some {
                        pending
                    } else {
                        Some(deadline_of(opcode, stamp))
                    },
                ),
            }
        } else if opcode == RDB_OPCODE_AUX {
            match string_at(s, at + 1) {
                Err(e) => Err(e),
                Ok((_, middle)) => match string_at(s, middle) {
                    Err(e) => Err(e),
                    Ok((_, next)) => entry_at(s, next, db, pending),
                },
            }
        } else if opcode == RDB_OPCODE_RESIZEDB {
            match length_at(s, at + 1) {
                Err(e) => Err(e),
                Ok((_, middle)) => match length_at(s, middle) {
                    Err(e) => Err(e),
                    Ok((_, next)) => entry_at(s, next, db, pending),
                },
            }
        } else {
            match string_at(s, at + 1) {
                Err(e) => Err(e),
                Ok((key, middle)) => if opcode == RDB_TYPE_STRING {
                    match string_at(s, middle) {
                        Err(e) => Err(e),
                        Ok((value, next)) => Ok(
                            (Some(EntryView { key, value, expiry: pending }), next, db),
                        ),
                    }
                } else if opcode <= RDB_TYPE_HASH {
                    Ok((Some(EntryView { key, value: Seq::empty(), expiry: pending }), middle, db))
                } else {
                    Err(RDBError::InvalidType)
                },
            }
        }
    }
}

/// A length that was read stands within the bytes and takes at least one.
pub proof fn lemma_length_at_bounds(s: Seq<u8>, at: int)
    requires
        0 <= at <= s.len(),
    ensures
        length_at(s, at) matches Ok((_, end)) ==> at < end <= s.len(),
{
}

/// A string that was read stands within the bytes and takes at least one.
pub proof fn lemma_string_at_bounds(s: Seq<u8>, at: int)
    requires
        0 <= at <= s.len(),
    ensures
        string_at(s, at) matches Ok((_, end)) ==> at < end <= s.len(),
{
    lemma_length_at_bounds(s, at);
}

/// What reading at a place gives stands behind that place and within the
/// bytes, and an entry takes at least one byte.
pub proof fn lemma_entry_at_bounds(s: Seq<u8>, at: int, db: u8, pending: Option<Timestamp>)
    requires
        0 <= at <= s.len(),
    ensures
        entry_at(s, at, db, pending) matches Ok((entry, next, _)) ==> at <= next <= s.len() && (
        entry is Some ==> at < next),
    decreases s.len() - at,
{
    if s.len() - at >= 1 {
        let opcode = s[at];
        if opcode == RDB_OPCODE_EOF {
        } else if opcode == RDB_OPCODE_SELECTDB {
            lemma_length_at_bounds(s, at + 1);
            if let Ok((number, next)) = length_at(s, at + 1) {
                lemma_entry_at_bounds(s, next, (number % 256) as u8, pending);
            }
        } else if opcode == RDB_OPCODE_EXPIRETIME || opcode == RDB_OPCODE_EXPIRETIME_MS {
            if let Ok((stamp, next)) = number_at(s, at + 1, 8) {
                lemma_entry_at_bounds(
                    s,
                    next,
                    db,
                    if pending is Some {
                        pending
                    } else {
                        Some(deadline_of(opcode, stamp))
                    },
                );
            }
        } else if opcode == RDB_OPCODE_AUX {
            lemma_string_at_bounds(s, at + 1);
            if let Ok((_, middle)) = string_at(s, at + 1) {
                lemma_string_at_bounds(s, middle);
                if let Ok((_, next)) = string_at(s, middle) {
                    lemma_entry_at_bounds(s, next, db, pending);
                }
            }
        } else if opcode == RDB_OPCODE_RESIZEDB {
            lemma_length_at_bounds(s, at + 1);
            if let Ok((_, middle)) = length_at(s, at + 1) {
                lemma_length_at_bounds(s, middle);
                if let Ok((_, next)) = length_at(s, middle) {
                    lemma_entry_at_bounds(s, next, db, pending);
                }
            }
        } else {
            lemma_string_at_bounds(s, at + 1);
            if let Ok((_, middle)) = string_at(s, at + 1) {
                lemma_string_at_bounds(s, middle);
            }
        }
    }
}

/// The entries from `at` on, in their order, for a reader that has the
/// database `db` selected; and the error that ends them, or none where they
/// go on to the end of the snapshot.
///
/// An entry takes at least one byte (see `lemma_entry_at_bounds`), so the
/// test of `next` only serves to show that the definition is well founded.
pub open spec fn entries_from(s: Seq<u8>, at: int, db: u8) -> (Seq<EntryView>, Option<RDBError>)
    decreases s.len() - at,
{
    match entry_at(s, at, db, None) {
        Err(e) => (Seq::empty(), Some(e)),
        Ok((None, _, _)) => (Seq::empty(), None),
        Ok((Some(entry), next, chosen)) => if at < next <= s.len() {
            let (rest, end) = entries_from(s, next, chosen);
            (seq![entry] + rest, end)
        } else {
            (seq![entry], None)
        },
    }
}

/// How the entries from `at` on are made of the next entry and of those
/// behind it.
pub proof fn lemma_entries_from_step(s: Seq<u8>, at: int, db: u8)
    requires
        0 <= at <= s.len(),
    ensures
        match entry_at(s, at, db, None) {
            Err(e) => entries_from(s, at, db) == (Seq::<EntryView>::empty(), Some(e)),
            Ok((None, _, _)) => entries_from(s, at, db) == (
                Seq::<EntryView>::empty(),
                None::<RDBError>,
            ),
            Ok((Some(entry), next, chosen)) => at < next <= s.len() && entries_from(s, at, db) == (
                seq![entry] + entries_from(s, next, chosen).0,
                entries_from(s, next, chosen).1,
            ),
        },
{
    lemma_entry_at_bounds(s, at, db, None);
}

/// The entries of the snapshot `s`, and the error that ends them, or none:
/// the header, and then one entry after the other with the database 0
/// selected at first.
pub open spec fn snapshot_entries(s: Seq<u8>) -> (Seq<EntryView>, Option<RDBError>) {
    match header_at(s, 0) {
        Err(e) => (Seq::empty(), Some(e)),
        Ok(start) => entries_from(s, start, 0),
    }
}

/// The state of a reader: the bytes of the snapshot, the place that the
/// reader has come to, and the database that is selected.
pub struct ReaderView {
    /// The bytes of the snapshot.
    pub input: Seq<u8>,
    /// The number of bytes that the reader has passed.
    pub position: int,
    /// The database that is selected.
    pub current_db: u8,
}

impl ReaderView {
    /// The same reader at another place.
    pub open spec fn moved_to(self, position: int) -> ReaderView {
        ReaderView { position, ..self }
    }
}

/// One more than the largest number that `count` bytes write, for up to
/// eight bytes.
pub open spec fn limit(count: nat) -> nat {
    if count == 0 {
        1
    } else if count == 1 {
        0x100
    } else if count == 2 {
        0x1_0000
    } else if count == 3 {
        0x100_0000
    } else if count == 4 {
        0x1_0000_0000
    } else if count == 5 {
        0x100_0000_0000
    } else if count == 6 {
        0x1_0000_0000_0000
    } else if count == 7 {
        0x100_0000_0000_0000
    } else {
        0x1_0000_0000_0000_0000
    }
}

/// Reads the unsigned number of `count` bytes at `at`.
fn read_number(data: &[u8], at: usize, count: usize) -> (r: Result<(u64, usize), RDBError>)
    requires
        at <= data@.len(),
        count <= 8,
    ensures
        match number_at(data@, at as int, count as nat) {
            Ok((value, end)) => r matches Ok((got, place)) && got == value && place == end
                && value < limit(count as nat) && end <= data@.len(),
            Err(e) => r matches Err(got) && got == e,
        },
{
    if data.len() - at < count {
        return Err(RDBError::IoError);
    }
    let mut value: u64 = 0;
    let mut i: usize = 0;
    while i < count
        invariant
            i <= count <= 8,
            at + count <= data@.len() <= usize::MAX,
            value == be_value(data@, at as int, i as nat),
            value < limit(i as nat),
        decreases count - i,
    {
        value = value * 256 + data[at + i] as u64;
        i = i + 1;
    }
    Ok((value, at + count))
}

/// Reads the length that is written at `at`.
fn read_length_at(data: &[u8], at: usize) -> (r: Result<(usize, usize), RDBError>)
    requires
        at <= data@.len(),
    ensures
        match length_at(data@, at as int) {
            Ok((length, end)) => r matches Ok((got, place)) && got == length && place == end
                && length < 0x1_0000_0000 && at < end <= data@.len(),
            Err(e) => r matches Err(got) && got == e,
        },
{
    if data.len() - at < 1 {
        return Err(RDBError::IoError);
    }
    let first = data[at];
    let form = first >> 6;
    let low = first & 0x3F;
    assert(form == first / 64 && low == first % 64) by (bit_vector)
        requires
            form == first >> 6,
            low == first & 0x3F,
    ;
    let count: usize = if form == 0 {
        return Ok((low as usize, at + 1));
    } else if form == 1 {
        1
    } else if form == 2 {
        4
    } else if low == 0 {
        1
    } else if low == 1 {
        2
    } else if low == 2 {
        4
    } else {
        return Err(RDBError::InvalidLength);
    };
    match read_number(data, at + 1, count) {
        Err(e) => Err(e),
        Ok((value, end)) => {
            if form == 1 {
                Ok((low as usize * 256 + value as usize, end))
            } else {
                Ok((value as usize, end))
            }
        },
    }
}

/// Reads the string that is written at `at`.
fn read_string_at(data: &[u8], at: usize) -> (r: Result<(Vec<u8>, usize), RDBError>)
    requires
        at <= data@.len(),
    ensures
        match string_at(data@, at as int) {
            Ok((text, end)) => r matches Ok((got, place)) && got@ == text && place == end && at
                < end <= data@.len(),
            Err(e) => r matches Err(got) && got == e,
        },
{
    if data.len() - at < 1 {
        return Err(RDBError::IoError);
    }
    let first = data[at];
    if first == 0xC0 || first == 0xC1 || first == 0xC2 {
        let count: usize = if first == 0xC0 {
            1
        } else if first == 0xC1 {
            2
        } else {
            4
        };
        match read_number(data, at + 1, count) {
            Err(e) => Err(e),
            Ok((value, end)) => {
                let half: u64 = if count == 1 {
                    0x80
                } else if count == 2 {
                    0x8000
                } else {
                    0x8000_0000
                };
                let signed: i64 = if value >= half {
                    value as i64 - 2 * (half as i64)
                } else {
                    value as i64
                };
                Ok((integer_text(signed), end))
            },
        }
    } else {
        match read_length_at(data, at) {
            Err(e) => Err(e),
            Ok((length, start)) => {
                if data.len() - start < length {
                    Err(RDBError::IoError)
                } else {
                    let bytes = vstd::slice::slice_subrange(data, start, start + length);
                    Ok((vstd::slice::slice_to_vec(bytes), start + length))
                }
            },
        }
    }
}

/// `got` is the entry `expected`, or none as it is.
pub open spec fn is_entry(got: Option<RDBEntry>, expected: Option<EntryView>) -> bool {
    match expected {
        Some(entry) => got matches Some(found) && found@ == entry,
        None => got is None,
    }
}

/// Reads the next entry from `start` on.
fn read_entry_at(data: &[u8], start: usize, selected: u8) -> (r: Result<
    (Option<RDBEntry>, usize, u8),
    RDBError,
>)
    requires
        start <= data@.len(),
    ensures
        match entry_at(data@, start as int, selected, None) {
            Ok((entry, end, db)) => r matches Ok((got, place, chosen)) && is_entry(got, entry)
                && place == end && chosen == db && start <= end <= data@.len(),
            Err(e) => r matches Err(got) && got == e,
        },
{
    let mut at: usize = start;
    let mut db: u8 = selected;
    let mut pending: Option<Timestamp> = None;
    loop
        invariant
            start <= at <= data@.len(),
            entry_at(data@, start as int, selected, None) == entry_at(data@, at as int, db, pending),
        decreases data@.len() - at,
    {
        if data.len() - at < 1 {
            return Ok((None, at, db));
        }
        let opcode = data[at];
        if opcode == RDB_OPCODE_EOF {
            return Ok((None, at + 1, db));
        } else if opcode == RDB_OPCODE_SELECTDB {
            match read_length_at(data, at + 1) {
                Err(e) => {
                    return Err(e);
                },
                Ok((number, next)) => {
                    db = (number % 256) as u8;
                    at = next;
                },
            }
        } else if opcode == RDB_OPCODE_EXPIRETIME || opcode == RDB_OPCODE_EXPIRETIME_MS {
            match read_number(data, at + 1, 8) {
                Err(e) => {
                    return Err(e);
                },
                Ok((stamp, next)) => {
                    if pending.is_none() {
                        pending = Some(
                            if opcode == RDB_OPCODE_EXPIRETIME {
                                Timestamp { secs: stamp, nanos: 0 }
                            } else {
                                Timestamp {
                                    secs: stamp / 1000,
                                    nanos: ((stamp % 1000) * 1_000_000) as u32,
                                }
                            },
                        );
                    }
                    at = next;
                },
            }
        } else if opcode == RDB_OPCODE_AUX {
            let middle = match read_string_at(data, at + 1) {
                Err(e) => {
                    return Err(e);
                },
                Ok((_, middle)) => middle,
            };
            match read_string_at(data, middle) {
                Err(e) => {
                    return Err(e);
                },
                Ok((_, next)) => {
                    at = next;
                },
            }
        } else if opcode == RDB_OPCODE_RESIZEDB {
            let middle = match read_length_at(data, at + 1) {
                Err(e) => {
                    return Err(e);
                },
                Ok((_, middle)) => middle,
            };
            match read_length_at(data, middle) {
                Err(e) => {
                    return Err(e);
                },
                Ok((_, next)) => {
                    at = next;
                },
            }
        } else {
            let (key, middle) = match read_string_at(data, at + 1) {
                Err(e) => {
                    return Err(e);
                },
                Ok(found) => found,
            };
            if opcode == RDB_TYPE_STRING {
                match read_string_at(data, middle) {
                    Err(e) => {
                        return Err(e);
                    },
                    Ok((value, next)) => {
                        return Ok(
                            (
                                Some(RDBEntry { key, value: RDBValue::String(value), expiry: pending }),
                                next,
                                db,
                            ),
                        );
                    },
                }
            } else if opcode <= RDB_TYPE_HASH {
                return Ok(
                    (
                        Some(RDBEntry { key, value: RDBValue::String(Vec::new()), expiry: pending }),
                        middle,
                        db,
                    ),
                );
            } else {
                return Err(RDBError::InvalidType);
            }
        }
    }
}

/// The reader of a snapshot: the bytes, and the place in them that it has
/// come to.
pub struct RDBParser {
    data: Vec<u8>,
    position: usize,
    current_db: u8,
}

impl View for RDBParser {
    type V = ReaderView;

    closed spec fn view(&self) -> ReaderView {
        ReaderView {
            input: self.data@,
            position: self.position as int,
            current_db: self.current_db,
        }
    }
}

impl RDBParser {
    #[verifier::type_invariant]
    spec fn well_formed(self) -> bool {
        self.position <= self.data@.len()
    }

    /// A reader at the start of the snapshot `image`, with the database 0
    /// selected.
    pub fn new(image: Vec<u8>) -> (parser: Self)
        ensures
            parser@ == (ReaderView { input: image@, position: 0, current_db: 0 }),
    {
        RDBParser { data: image, position: 0, current_db: 0 }
    }

    /// The database that is selected.
    pub fn current_db(&self) -> (db: u8)
        ensures
            db == self@.current_db,
    {
        self.current_db
    }

    /// Reads the header, and passes it where it is the one that the reader
    /// accepts.
    pub fn parse_header(&mut self) -> (result: Result<(), RDBError>)
        ensures
            match header_at(old(self)@.input, old(self)@.position) {
                Ok(next) => result is Ok && final(self)@ == old(self)@.moved_to(next),
                Err(e) => result matches Err(got) && got == e && final(self)@ == old(self)@,
            },
    {
        proof {
            use_type_invariant(&*self);
        }
        let at = self.position;
        let available = self.data.len() - at;
        if available < 5 {
            return Err(RDBError::IoError);
        }
        let ghost found = self.data@.subrange(at as int, at + 5);
        if !(self.data[at] == 82 && self.data[at + 1] == 69 && self.data[at + 2] == 68
            && self.data[at + 3] == 73 && self.data[at + 4] == 83) {
            proof {
                if found == magic() {
                    assert(found[0] == 82 && found[1] == 69 && found[2] == 68 && found[3] == 73
                        && found[4] == 83);
                }
            }
            return Err(RDBError::InvalidMagicString);
        }
        assert(found =~= magic());
        if available < 9 {
            return Err(RDBError::IoError);
        }
        let ghost version = self.data@.subrange(at + 5, at + 9);
        if !(self.data[at + 5] == 48 && self.data[at + 6] == 48 && self.data[at + 7] == 49
            && self.data[at + 8] == 49) {
            proof {
                if version == version_text() {
                    assert(version[0] == 48 && version[1] == 48 && version[2] == 49 && version[3]
                        == 49);
                }
            }
            return Err(RDBError::UnsupportedVersion);
        }
        assert(version =~= version_text());
        self.position = at + 9;
        Ok(())
    }

    /// Reads a length, and passes it.
    pub fn read_length(&mut self) -> (result: Result<usize, RDBError>)
        ensures
            match length_at(old(self)@.input, old(self)@.position) {
                Ok((length, next)) => result matches Ok(got) && got == length && final(self)@
                    == old(self)@.moved_to(next),
                Err(e) => result matches Err(got) && got == e && final(self)@ == old(self)@,
            },
    {
        proof {
            use_type_invariant(&*self);
        }
        match read_length_at(self.data.as_slice(), self.position) {
            Err(e) => Err(e),
            Ok((length, next)) => {
                self.position = next;
                Ok(length)
            },
        }
    }

    /// Reads a string, and passes it.
    pub fn read_string(&mut self) -> (result: Result<Vec<u8>, RDBError>)
        ensures
            match string_at(old(self)@.input, old(self)@.position) {
                Ok((text, next)) => result matches Ok(got) && got@ == text && final(self)@ == old(self)@.moved_to(next),
                Err(e) => result matches Err(got) && got == e && final(self)@ == old(self)@,
            },
    {
        proof {
            use_type_invariant(&*self);
        }
        match read_string_at(self.data.as_slice(), self.position) {
            Err(e) => Err(e),
            Ok((text, next)) => {
                self.position = next;
                Ok(text)
            },
        }
    }

    /// Reads up to the next entry and passes it, and returns it; `None` at
    /// the end of the snapshot.
    ///
    /// What is returned, and where the reader then stands, depends on the
    /// bytes, the place and the selected database alone: two readers of the
    /// same bytes give the same entries.
    pub fn parse_entry(&mut self) -> (result: Result<Option<RDBEntry>, RDBError>)
        ensures
            match entry_at(old(self)@.input, old(self)@.position, old(self)@.current_db, None) {
                Ok((entry, next, db)) => result matches Ok(got) && is_entry(got, entry) && final(self)@ == (ReaderView { input: old(self)@.input, position: next, current_db: db }),
                Err(e) => result matches Err(got) && got == e && final(self)@ == old(self)@,
            },
    {
        proof {
            use_type_invariant(&*self);
        }
        match read_entry_at(self.data.as_slice(), self.position, self.current_db) {
            Err(e) => Err(e),
            Ok((entry, next, db)) => {
                self.position = next;
                self.current_db = db;
                Ok(entry)
            },
        }
    }
}

} // verus!

//! What the server decides: how it seeds the store from a snapshot before it
//! takes clients, and what it does when a client comes, when accepting one
//! fails and when it is told to stop.
//!
//! The server itself listens, accepts and reads the snapshot file, and is not
//! here. It hands in what came of that, and does what it is told.

use crate::parser::rdb::{
    entries_from, lemma_entries_from_step, snapshot_entries, EntryView, RDBError, RDBParser,
    RDBValue,
};
use crate::store::datatype::DataType;
use crate::store::redis::{model_set, Model, Store};
use vstd::prelude::*;

verus! {

/// The store after the entries `entries` were written to it, in their order
/// and each to stay: the deadline of an entry of a snapshot is not taken
/// over.
pub open spec fn loaded(model: Model, entries: Seq<EntryView>) -> Model
    decreases entries.len(),
{
    if entries.len() == 0 {
        model
    } else {
        model_set(loaded(model, entries.drop_last()), entries.last().key, entries.last().value)
    }
}

/// Writes the entries of the snapshot `image` to the store, and returns
/// their number.
///
/// Where the snapshot cannot be read to its end the error is returned, and
/// the entries before it are in the store.
pub fn load_snapshot(store: &mut Store, image: Vec<u8>) -> (result: Result<usize, RDBError>)
    ensures
        final(store)@ == loaded(old(store)@, snapshot_entries(image@).0),
        match snapshot_entries(image@).1 {
            None => result matches Ok(count) && count == snapshot_entries(image@).0.len(),
            Some(e) => result matches Err(got) && got == e,
        },
{
    let ghost input = image@;
    let ghost mut done: Seq<EntryView> = Seq::empty();
    let size = image.len();
    let mut parser = RDBParser::new(image);
    match parser.parse_header() {
        Err(e) => {
            return Err(e);
        },
        Ok(()) => {},
    }
    let mut count: usize = 0;
    assert(done + entries_from(input, parser@.position, parser@.current_db).0 =~= entries_from(
        input,
        parser@.position,
        parser@.current_db,
    ).0);
    loop
        invariant
            input == image@,
            parser@.input == input,
            input.len() == size,
            0 <= parser@.position <= input.len(),
            count == done.len(),
            count <= parser@.position,
            store@ == loaded(old(store)@, done),
            snapshot_entries(input).0 == done + entries_from(
                input,
                parser@.position,
                parser@.current_db,
            ).0,
            snapshot_entries(input).1 == entries_from(
                input,
                parser@.position,
                parser@.current_db,
            ).1,
        decreases input.len() - parser@.position,
    {
        proof {
            lemma_entries_from_step(input, parser@.position, parser@.current_db);
        }
        let ghost rest = entries_from(input, parser@.position, parser@.current_db).0;
        match parser.parse_entry() {
            Err(e) => {
                assert(done + rest =~= done);
                return Err(e);
            },
            Ok(None) => {
                assert(done + rest =~= done);
                return Ok(count);
            },
            Ok(Some(entry)) => {
                let ghost after = entries_from(input, parser@.position, parser@.current_db).0;
                proof {
                    assert(done + rest =~= done.push(entry@) + after);
                    assert(done.push(entry@).drop_last() =~= done);
                    done = done.push(entry@);
                }
                match entry.value {
                    RDBValue::String(bytes) => {
                        let _ = store.set(entry.key.as_slice(), DataType::String(bytes));
                    },
                }
                count = count + 1;
            },
        }
    }
}

/// What came of opening and reading the snapshot file.
#[derive(Debug, PartialEq, Eq)]
pub enum SnapshotFile {
    /// There is no such file.
    Missing,
    /// The file is there and could not be read.
    Unreadable,
    /// The bytes of the file.
    Read(Vec<u8>),
}

/// Why the server does not start.
#[derive(Debug, Clone, Copy, PartialEq, Eq, Structural)]
pub enum StartError {
    /// The snapshot file is there and could not be read.
    Io,
    /// The snapshot is not one that the reader accepts.
    Snapshot(RDBError),
}

/// What seeding the store from `file` gives: the number of entries written,
/// or the error that keeps the server from starting. A snapshot file that is
/// not there is no error, and leaves the store as it is.
pub open spec fn seeded(file: SnapshotFile) -> Result<nat, StartError> {
    match file {
        SnapshotFile::Missing => Ok(0),
        SnapshotFile::Unreadable => Err(StartError::Io),
        SnapshotFile::Read(image) => match snapshot_entries(image@).1 {
            None => Ok(snapshot_entries(image@).0.len()),
            Some(e) => Err(StartError::Snapshot(e)),
        },
    }
}

/// The store after it was seeded from `file`.
pub open spec fn store_seeded(model: Model, file: SnapshotFile) -> Model {
    match file {
        SnapshotFile::Read(image) => loaded(model, snapshot_entries(image@).0),
        _ => model,
    }
}

/// Seeds the store from the snapshot file, and returns the number of entries
/// written.
pub fn init_db(store: &mut Store, file: SnapshotFile) -> (result: Result<usize, StartError>)
    ensures
        final(store)@ == store_seeded(old(store)@, file),
        match seeded(file) {
            Ok(count) => result matches Ok(got) && got == count,
            Err(e) => result matches Err(got) && got == e,
        },
{
    match file {
        SnapshotFile::Missing => Ok(0),
        SnapshotFile::Unreadable => Err(StartError::Io),
        SnapshotFile::Read(image) => match load_snapshot(store, image) {
            Ok(count) => Ok(count),
            Err(e) => Err(StartError::Snapshot(e)),
        },
    }
}

/// What happens to a server that accepts clients.
#[derive(Debug, Clone, Copy, PartialEq, Eq, Structural)]
pub enum Event {
    /// A client has connected.
    Connection,
    /// Accepting a client has failed.
    AcceptError,
    /// The server was told to stop.
    Shutdown,
}

/// What the server does about an event.
#[derive(Debug, Clone, Copy, PartialEq, Eq, Structural)]
pub enum Action {
    /// It hands the client to a handler of its own, and accepts on.
    Handle,
    /// It accepts on.
    Continue,
    /// It accepts no more. The handlers that run are left to finish.
    Stop,
}

/// The acceptor: whether the server still accepts clients.
#[derive(Debug, Clone, Copy, PartialEq, Eq, Structural)]
pub struct Acceptor {
    /// The server was not told to stop yet.
    pub accepting: bool,
}

/// What an acceptor does about `event`: once told to stop it stops, whatever
/// comes; until then a client is handled and a failure is passed over.
pub open spec fn action_of(acceptor: Acceptor, event: Event) -> Action {
    if !acceptor.accepting {
        Action::Stop
    } else {
        match event {
            Event::Connection => Action::Handle,
            Event::AcceptError => Action::Continue,
            Event::Shutdown => Action::Stop,
        }
    }
}

impl Acceptor {
    /// An acceptor that accepts.
    pub fn new() -> (acceptor: Self)
        ensures
            acceptor.accepting,
    {
        Acceptor { accepting: true }
    }

    /// Decides what to do about `event`. The acceptor accepts afterwards
    /// unless it was told to stop, now or before.
    pub fn on(&mut self, event: Event) -> (action: Action)
        ensures
            action == action_of(*old(self), event),
            final(self).accepting == (action != Action::Stop),
    {
        if !self.accepting {
            return Action::Stop;
        }
        match event {
            Event::Connection => Action::Handle,
            Event::AcceptError => Action::Continue,
            Event::Shutdown => {
                self.accepting = false;
                Action::Stop
            },
        }
    }
}

} // verus!

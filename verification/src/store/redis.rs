//! The store: a map from keys to values, each with an optional deadline.
//!
//! Instants and spans of time are numbers of nanoseconds. An instant is a
//! reading of a monotonic clock, which the caller takes and hands in. An
//! entry whose deadline has passed is absent for every reader; the store
//! removes it when a reader comes upon it, and never on its own.

use crate::error::Result;
use crate::store::datatype::DataType;
use vstd::prelude::*;

verus! {

/// What the store holds under a key, as a mathematical value.
pub struct Record {
    /// The bytes of the value.
    pub value: Seq<u8>,
    /// The instant after which the entry is absent; `None` where it stays.
    pub expiry: Option<u128>,
}

/// What the store is, as a mathematical value: a map from keys to records.
pub type Model = Map<Seq<u8>, Record>;

/// The key under which the store keeps the configured directory: `dir`.
pub open spec fn dir_key() -> Seq<u8> {
    seq![100u8, 105u8, 114u8]
}

/// The key under which the store keeps the configured file name:
/// `dbfilename`.
pub open spec fn dbfilename_key() -> Seq<u8> {
    seq![100u8, 98u8, 102u8, 105u8, 108u8, 101u8, 110u8, 97u8, 109u8, 101u8]
}

/// The record is absent at the instant `now`: it has a deadline, and `now`
/// is later.
pub open spec fn expired(record: Record, now: u128) -> bool {
    record.expiry matches Some(deadline) && now > deadline
}

/// The deadline of an entry written at `now` to live for `ttl`: their sum,
/// or the last instant there is where the sum is later than that. No instant
/// is later than the last, so in both cases the entry is absent at exactly
/// the instants that are later than `now + ttl`.
pub open spec fn deadline(now: u128, ttl: u128) -> u128 {
    if now + ttl > u128::MAX {
        u128::MAX
    } else {
        (now + ttl) as u128
    }
}

/// What a reader finds under `key` at the instant `now`.
pub open spec fn model_get(model: Model, key: Seq<u8>, now: u128) -> Option<Seq<u8>> {
    if model.dom().contains(key) && !expired(model[key], now) {
        Some(model[key].value)
    } else {
        None
    }
}

/// The store after a reader has looked under `key` at the instant `now`: an
/// entry that the reader found expired is removed.
pub open spec fn model_after_get(model: Model, key: Seq<u8>, now: u128) -> Model {
    if model.dom().contains(key) && expired(model[key], now) {
        model.remove(key)
    } else {
        model
    }
}

/// The store after `value` was written under `key`, to stay.
pub open spec fn model_set(model: Model, key: Seq<u8>, value: Seq<u8>) -> Model {
    model.insert(key, Record { value, expiry: None })
}

/// The store after `value` was written under `key` at the instant `now`, to
/// live for `ttl`.
pub open spec fn model_set_ex(
    model: Model,
    key: Seq<u8>,
    value: Seq<u8>,
    ttl: u128,
    now: u128,
) -> Model {
    model.insert(key, Record { value, expiry: Some(deadline(now, ttl)) })
}

/// The store after the entry under `key` was deleted.
pub open spec fn model_delete(model: Model, key: Seq<u8>) -> Model {
    model.remove(key)
}

/// The store as it is made: it holds the configured directory and file name.
pub open spec fn model_new(dir: Seq<u8>, dbfilename: Seq<u8>) -> Model {
    model_set(model_set(Map::empty(), dir_key(), dir), dbfilename_key(), dbfilename)
}

/// What the store holds under a key: the value and its deadline.
pub struct Entry {
    value: DataType,
    expiry: Option<u128>,
}

impl View for Entry {
    type V = Record;

    closed spec fn view(&self) -> Record {
        Record { value: self.value@, expiry: self.expiry }
    }
}

/// A key of the store with its entry.
struct Slot {
    key: Vec<u8>,
    entry: Entry,
}

/// The key of the slot at `i`.
spec fn key_at(slots: Seq<Slot>, i: int) -> Seq<u8> {
    slots[i].key@
}

/// No key stands in two slots.
spec fn distinct(slots: Seq<Slot>) -> bool {
    forall|i: int, j: int|
        0 <= i < slots.len() && 0 <= j < slots.len() && i != j ==> #[trigger] key_at(slots, i)
            != #[trigger] key_at(slots, j)
}

/// Some slot holds `key`.
spec fn holds(slots: Seq<Slot>, key: Seq<u8>) -> bool {
    exists|i: int| 0 <= i < slots.len() && #[trigger] key_at(slots, i) == key
}

/// A slot that holds `key`.
spec fn place(slots: Seq<Slot>, key: Seq<u8>) -> int {
    choose|i: int| 0 <= i < slots.len() && #[trigger] key_at(slots, i) == key
}

/// The map that the slots stand for.
spec fn model_of(slots: Seq<Slot>) -> Model {
    Map::new(|key: Seq<u8>| holds(slots, key), |key: Seq<u8>| slots[place(slots, key)].entry@)
}

/// Where no key stands twice, the slot at `i` is the one that the map has
/// for its key.
proof fn lemma_slot_in_model(slots: Seq<Slot>, i: int)
    requires
        distinct(slots),
        0 <= i < slots.len(),
    ensures
        model_of(slots).dom().contains(key_at(slots, i)),
        model_of(slots)[key_at(slots, i)] == slots[i].entry@,
{
    let key = key_at(slots, i);
    assert(holds(slots, key));
    let j = place(slots, key);
    assert(key_at(slots, j) == key_at(slots, i));
}

/// A new key in a new slot is an insertion.
proof fn lemma_model_push(slots: Seq<Slot>, slot: Slot)
    requires
        distinct(slots),
        !holds(slots, slot.key@),
    ensures
        distinct(slots.push(slot)),
        model_of(slots.push(slot)) == model_of(slots).insert(slot.key@, slot.entry@),
{
    let after = slots.push(slot);
    let last = slots.len() as int;
    assert forall|i: int| 0 <= i < slots.len() implies key_at(after, i) == key_at(slots, i) by {}
    assert(key_at(after, last) == slot.key@);
    assert forall|i: int, j: int|
        0 <= i < after.len() && 0 <= j < after.len() && i != j implies #[trigger] key_at(after, i)
        != #[trigger] key_at(after, j) by {
        if i < last && j < last {
            assert(key_at(slots, i) != key_at(slots, j));
        } else if i < last {
            assert(key_at(slots, i) != slot.key@);
        } else {
            assert(key_at(slots, j) != slot.key@);
        }
    }
    let expected = model_of(slots).insert(slot.key@, slot.entry@);
    assert forall|key: Seq<u8>| #[trigger]
        model_of(after).dom().contains(key) == expected.dom().contains(key) by {
        if holds(after, key) {
            let i = place(after, key);
            if i < last {
                assert(key_at(slots, i) == key);
            }
        }
        if holds(slots, key) {
            let i = place(slots, key);
            assert(key_at(after, i) == key);
        }
        if key == slot.key@ {
            assert(key_at(after, last) == key);
        }
    }
    assert forall|key: Seq<u8>| #[trigger] model_of(after).dom().contains(key) implies model_of(
        after,
    )[key] == expected[key] by {
        let i = place(after, key);
        lemma_slot_in_model(after, i);
        if i < last {
            assert(key_at(slots, i) == key);
            lemma_slot_in_model(slots, i);
        }
    }
    assert(model_of(after) =~= expected);
}

/// A new entry in the slot of its key is an insertion.
proof fn lemma_model_update(slots: Seq<Slot>, at: int, slot: Slot)
    requires
        distinct(slots),
        0 <= at < slots.len(),
        slot.key@ == key_at(slots, at),
    ensures
        distinct(slots.update(at, slot)),
        model_of(slots.update(at, slot)) == model_of(slots).insert(slot.key@, slot.entry@),
{
    let after = slots.update(at, slot);
    assert forall|i: int| 0 <= i < slots.len() implies key_at(after, i) == key_at(slots, i) by {}
    assert forall|i: int, j: int|
        0 <= i < after.len() && 0 <= j < after.len() && i != j implies #[trigger] key_at(after, i)
        != #[trigger] key_at(after, j) by {
        assert(key_at(slots, i) != key_at(slots, j));
    }
    let expected = model_of(slots).insert(slot.key@, slot.entry@);
    assert forall|key: Seq<u8>| #[trigger]
        model_of(after).dom().contains(key) == expected.dom().contains(key) by {
        if holds(after, key) {
            let i = place(after, key);
            assert(key_at(slots, i) == key);
        }
        if holds(slots, key) {
            let i = place(slots, key);
            assert(key_at(after, i) == key);
        }
        if key == slot.key@ {
            assert(key_at(after, at) == key);
        }
    }
    assert forall|key: Seq<u8>| #[trigger] model_of(after).dom().contains(key) implies model_of(
        after,
    )[key] == expected[key] by {
        let i = place(after, key);
        lemma_slot_in_model(after, i);
        assert(key_at(slots, i) == key);
        lemma_slot_in_model(slots, i);
    }
    assert(model_of(after) =~= expected);
}

/// Moving the last slot into the place of another is a removal.
proof fn lemma_model_swap_remove(slots: Seq<Slot>, at: int)
    requires
        distinct(slots),
        0 <= at < slots.len(),
    ensures
        distinct(slots.update(at, slots.last()).drop_last()),
        model_of(slots.update(at, slots.last()).drop_last()) == model_of(slots).remove(
            key_at(slots, at),
        ),
{
    let after = slots.update(at, slots.last()).drop_last();
    let last = slots.len() - 1;
    let gone = key_at(slots, at);
    // Where each slot of `after` comes from.
    assert forall|i: int| 0 <= i < after.len() implies key_at(after, i) == key_at(
        slots,
        if i == at {
            last
        } else {
            i
        },
    ) by {}
    assert forall|i: int, j: int|
        0 <= i < after.len() && 0 <= j < after.len() && i != j implies #[trigger] key_at(after, i)
        != #[trigger] key_at(after, j) by {
        let from_i = if i == at {
            last
        } else {
            i
        };
        let from_j = if j == at {
            last
        } else {
            j
        };
        assert(key_at(slots, from_i) != key_at(slots, from_j));
    }
    let expected = model_of(slots).remove(gone);
    assert forall|key: Seq<u8>| #[trigger]
        model_of(after).dom().contains(key) == expected.dom().contains(key) by {
        if holds(after, key) {
            let i = place(after, key);
            let from = if i == at {
                last
            } else {
                i
            };
            assert(key_at(slots, from) == key);
            if key == gone {
                assert(key_at(slots, from) != key_at(slots, at));
            }
        }
        if holds(slots, key) && key != gone {
            let i = place(slots, key);
            if i == last {
                assert(key_at(after, at) == key);
            } else {
                assert(key_at(after, i) == key);
            }
        }
    }
    assert forall|key: Seq<u8>| #[trigger] model_of(after).dom().contains(key) implies model_of(
        after,
    )[key] == expected[key] by {
        let i = place(after, key);
        lemma_slot_in_model(after, i);
        let from = if i == at {
            last
        } else {
            i
        };
        assert(key_at(slots, from) == key);
        lemma_slot_in_model(slots, from);
    }
    assert(model_of(after) =~= expected);
}

/// Tells whether two byte strings are the same.
fn same_bytes(a: &[u8], b: &[u8]) -> (same: bool)
    ensures
        same == (a@ == b@),
{
    if a.len() != b.len() {
        return false;
    }
    let n = a.len();
    let mut i: usize = 0;
    while i < n
        invariant
            i <= n,
            n == a@.len(),
            n == b@.len(),
            forall|j: int| 0 <= j < i ==> a@[j] == b@[j],
        decreases n - i,
    {
        if a[i] != b[i] {
            return false;
        }
        i = i + 1;
    }
    assert(a@ =~= b@);
    true
}

/// Finds the slot that holds `key`.
fn find(slots: &Vec<Slot>, key: &[u8]) -> (found: Option<usize>)
    ensures
        match found {
            Some(i) => i < slots@.len() && key_at(slots@, i as int) == key@,
            None => !holds(slots@, key@),
        },
{
    let mut i: usize = 0;
    while i < slots.len()
        invariant
            i <= slots@.len(),
            forall|j: int| 0 <= j < i ==> key_at(slots@, j) != key@,
        decreases slots@.len() - i,
    {
        if same_bytes(slots[i].key.as_slice(), key) {
            return Some(i);
        }
        i = i + 1;
    }
    None
}

/// Writes `entry` under `key`, in the slot of the key or in a new one.
fn put(slots: &mut Vec<Slot>, key: &[u8], entry: Entry)
    requires
        distinct(old(slots)@),
    ensures
        distinct(final(slots)@),
        model_of(final(slots)@) == model_of(old(slots)@).insert(key@, entry@),
{
    let slot = Slot { key: vstd::slice::slice_to_vec(key), entry };
    match find(slots, key) {
        Some(i) => {
            proof {
                lemma_model_update(slots@, i as int, slot);
            }
            slots[i] = slot;
        },
        None => {
            proof {
                lemma_model_push(slots@, slot);
            }
            slots.push(slot);
        },
    }
}

/// Removes the entry under `key`, if there is one.
fn drop_key(slots: &mut Vec<Slot>, key: &[u8])
    requires
        distinct(old(slots)@),
    ensures
        distinct(final(slots)@),
        model_of(final(slots)@) == model_of(old(slots)@).remove(key@),
{
    match find(slots, key) {
        Some(i) => {
            proof {
                lemma_model_swap_remove(slots@, i as int);
            }
            slots.swap_remove(i);
        },
        None => {
            assert(model_of(slots@).remove(key@) =~= model_of(slots@));
        },
    }
}

/// What a reader finds under a key, before anything is removed.
#[derive(Debug, PartialEq, Eq)]
pub enum Lookup {
    /// The store holds nothing under the key.
    Missing,
    /// The store holds an entry under the key, and its deadline has passed.
    Expired,
    /// The store holds this value under the key.
    Found(DataType),
}

/// The store.
pub struct Store {
    slots: Vec<Slot>,
}

impl View for Store {
    type V = Model;

    closed spec fn view(&self) -> Model {
        model_of(self.slots@)
    }
}

impl Store {
    #[verifier::type_invariant]
    spec fn well_formed(self) -> bool {
        distinct(self.slots@)
    }

    /// Makes a store that holds the configured directory under the key `dir`
    /// and the configured file name under the key `dbfilename`, both to stay.
    pub fn new(dir: Vec<u8>, dbfilename: Vec<u8>) -> (result: Result<Self>)
        ensures
            result matches Ok(store) && store@ == model_new(dir@, dbfilename@),
    {
        let mut slots: Vec<Slot> = Vec::new();
        let dir_name: [u8; 3] = [100, 105, 114];
        let file_name: [u8; 10] = [100, 98, 102, 105, 108, 101, 110, 97, 109, 101];
        assert(dir_name@ =~= dir_key());
        assert(file_name@ =~= dbfilename_key());
        assert(model_of(slots@) =~= Map::<Seq<u8>, Record>::empty());
        put(&mut slots, dir_name.as_slice(), Entry { value: DataType::String(dir), expiry: None });
        put(
            &mut slots,
            file_name.as_slice(),
            Entry { value: DataType::String(dbfilename), expiry: None },
        );
        Ok(Store { slots })
    }

    /// What a reader finds under `key` at the instant `now`. The store stays
    /// as it is: an expired entry is reported, and left for `expire`.
    pub fn lookup(&self, key: &[u8], now: u128) -> (found: Lookup)
        ensures
            match found {
                Lookup::Missing => !self@.dom().contains(key@),
                Lookup::Expired => self@.dom().contains(key@) && expired(self@[key@], now),
                Lookup::Found(value) => model_get(self@, key@, now) == Some(value@),
            },
    {
        proof {
            use_type_invariant(self);
        }
        match find(&self.slots, key) {
            None => Lookup::Missing,
            Some(i) => {
                proof {
                    lemma_slot_in_model(self.slots@, i as int);
                }
                let entry = &self.slots[i].entry;
                match entry.expiry {
                    Some(deadline) if now > deadline => Lookup::Expired,
                    _ => Lookup::Found(entry.value.clone()),
                }
            },
        }
    }

    /// Removes the entry under `key` where its deadline has passed at the
    /// instant `now`, and only then: an entry that was written again since a
    /// reader saw it expired stays.
    pub fn expire(&mut self, key: &[u8], now: u128)
        ensures
            final(self)@ == model_after_get(old(self)@, key@, now),
    {
        proof {
            use_type_invariant(&*self);
        }
        match find(&self.slots, key) {
            None => {},
            Some(i) => {
                proof {
                    lemma_slot_in_model(self.slots@, i as int);
                }
                let is_expired = match self.slots[i].entry.expiry {
                    Some(deadline) => now > deadline,
                    None => false,
                };
                if is_expired {
                    let mut slots: Vec<Slot> = Vec::new();
                    std::mem::swap(&mut slots, &mut self.slots);
                    drop_key(&mut slots, key);
                    self.slots = slots;
                }
            },
        }
    }

    /// The value under `key` at the instant `now`. An entry whose deadline
    /// has passed is absent, and is removed.
    pub fn get(&mut self, key: &[u8], now: u128) -> (result: Result<Option<DataType>>)
        ensures
            result matches Ok(found) && match found {
                Some(value) => model_get(old(self)@, key@, now) == Some(value@),
                None => model_get(old(self)@, key@, now) is None,
            },
            final(self)@ == model_after_get(old(self)@, key@, now),
    {
        match self.lookup(key, now) {
            Lookup::Missing => Ok(None),
            Lookup::Expired => {
                self.expire(key, now);
                Ok(None)
            },
            Lookup::Found(value) => Ok(Some(value)),
        }
    }

    /// Writes `value` under `key`, to stay: a deadline that the key had is
    /// gone.
    pub fn set(&mut self, key: &[u8], value: DataType) -> (result: Result<()>)
        ensures
            result is Ok,
            final(self)@ == model_set(old(self)@, key@, value@),
    {
        proof {
            use_type_invariant(&*self);
        }
        let mut slots: Vec<Slot> = Vec::new();
        std::mem::swap(&mut slots, &mut self.slots);
        put(&mut slots, key, Entry { value, expiry: None });
        self.slots = slots;
        Ok(())
    }

    /// Writes `value` under `key` at the instant `now`, to live for `ttl`.
    pub fn set_ex(&mut self, key: &[u8], value: DataType, ttl: u128, now: u128) -> (result: Result<
        (),
    >)
        ensures
            result is Ok,
            final(self)@ == model_set_ex(old(self)@, key@, value@, ttl, now),
    {
        proof {
            use_type_invariant(&*self);
        }
        let until = now.saturating_add(ttl);
        let mut slots: Vec<Slot> = Vec::new();
        std::mem::swap(&mut slots, &mut self.slots);
        put(&mut slots, key, Entry { value, expiry: Some(until) });
        self.slots = slots;
        Ok(())
    }

    /// Removes the entry under `key`, if there is one.
    pub fn delete(&mut self, key: &[u8]) -> (result: Result<()>)
        ensures
            result is Ok,
            final(self)@ == model_delete(old(self)@, key@),
    {
        proof {
            use_type_invariant(&*self);
        }
        let mut slots: Vec<Slot> = Vec::new();
        std::mem::swap(&mut slots, &mut self.slots);
        drop_key(&mut slots, key);
        self.slots = slots;
        Ok(())
    }
}

} // verus!

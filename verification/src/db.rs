//! The store: an index kept in step with a log, and rebuilt from the log
//! when the store is opened.
//!
//! The log is the source of truth and the index a cache of it: at every
//! moment the index is what the log replays to. A mutation goes to the log
//! first and to the index second, and where the log refuses it, the index
//! is left as it was.
//!
//! Keys are text and are logged as their UTF-8 encoding. A record whose key
//! is not valid UTF-8 cannot have been written by a store; a replay passes
//! over it without a word.

use crate::index::{Index, State};
use crate::log::{
    all_encodable, decode_log, encode_log, lemma_decode_log_append, lemma_encode_then_decode, Log,
    LogError, LogRecord, Record,
};
use crate::text::text_of;
use vstd::prelude::*;
use vstd::slice::slice_to_vec;
use vstd::utf8::{decode_utf8, encode_utf8, valid_utf8};

verus! {

/// Whether `record` names the key `key` of the index.
pub open spec fn names(record: Record, key: Seq<char>) -> bool {
    valid_utf8(record.key()) && decode_utf8(record.key()) == key
}

/// The state after `record` is applied to `state`: a put gives its key the
/// value, a delete takes the key away. A record whose key is not valid
/// UTF-8 names no key of the index and changes nothing.
pub open spec fn apply_record(state: State, record: Record) -> State {
    if valid_utf8(record.key()) {
        let key = decode_utf8(record.key());
        match record {
            Record::Put { value, .. } => state.insert(key, value),
            Record::Delete { .. } => state.remove(key),
        }
    } else {
        state
    }
}

/// The state that `records` lead to from an empty index, applied in order.
pub open spec fn replay(records: Seq<Record>) -> State
    decreases records.len(),
{
    if records.len() == 0 {
        Map::empty()
    } else {
        apply_record(replay(records.drop_last()), records.last())
    }
}

/// The state that a log image stands for, or the error that its reader
/// meets.
pub open spec fn recover(image: Seq<u8>) -> Result<State, LogError> {
    match decode_log(image) {
        Ok(records) => Ok(replay(records)),
        Err(e) => Err(e),
    }
}

/// Whether the record at position `i` is the last of `records` that names
/// `key`.
pub open spec fn is_last_naming(records: Seq<Record>, key: Seq<char>, i: int) -> bool {
    &&& 0 <= i < records.len()
    &&& names(records[i], key)
    &&& forall|j: int| i < j < records.len() ==> !names(#[trigger] records[j], key)
}

/// One call that changes the store, as a mathematical value.
pub enum Operation {
    /// `put(key, value)`.
    Put { key: Seq<char>, value: Seq<u8> },
    /// `delete(key)`.
    Delete { key: Seq<char> },
}

impl Operation {
    /// The record that the call appends to the log.
    pub open spec fn record(self) -> Record {
        match self {
            Operation::Put { key, value } => Record::Put { key: encode_utf8(key), value },
            Operation::Delete { key } => Record::Delete { key: encode_utf8(key) },
        }
    }

    /// What the call makes of a mapping held in memory: a put overwrites, a
    /// delete removes.
    pub open spec fn apply(self, state: State) -> State {
        match self {
            Operation::Put { key, value } => state.insert(key, value),
            Operation::Delete { key } => state.remove(key),
        }
    }
}

/// The records that a sequence of calls appends to the log.
pub open spec fn records_of(operations: Seq<Operation>) -> Seq<Record> {
    operations.map_values(|op: Operation| op.record())
}

/// What a sequence of calls makes of an empty mapping held in memory.
pub open spec fn apply_all(operations: Seq<Operation>) -> State
    decreases operations.len(),
{
    if operations.len() == 0 {
        Map::empty()
    } else {
        operations.last().apply(apply_all(operations.drop_last()))
    }
}

/// Applies one record to the index.
fn apply(index: &mut Index, record: LogRecord)
    requires
        old(index).wf(),
    ensures
        final(index).wf(),
        final(index)@ == apply_record(old(index)@, record@),
{
    broadcast use vstd::utf8::encode_utf8_decode_utf8;

    match record {
        LogRecord::Put { key, value } => {
            if let Some(text) = text_of(key) {
                index.insert(text, value);
            }
        },
        LogRecord::Delete { key } => {
            if let Some(text) = text_of(key) {
                index.remove(text.as_str());
            }
        },
    }
}

/// A key-value store over an append-only log.
pub struct Db {
    /// The log: every mutation that the store has accepted, in order.
    log: Log,
    /// The current value of every key.
    index: Index,
}

impl View for Db {
    type V = State;

    /// The current value of every key.
    closed spec fn view(&self) -> State {
        self.index@
    }
}

impl Db {
    /// The image of the store's log.
    pub closed spec fn image(&self) -> Seq<u8> {
        self.log@
    }

    /// The invariant of the store: its index is what its log replays to.
    /// `lemma_reopen` says so to the outside.
    pub closed spec fn wf(&self) -> bool {
        &&& self.index.wf()
        &&& recover(self.log@) == Ok::<State, LogError>(self.index@)
    }

    /// Rebuilds the index that a log image stands for: reads the records of
    /// the image and applies them in order to an empty index.
    ///
    /// Fails, with the reader's error, exactly where the image is not a
    /// sequence of whole records.
    pub fn replay_log(image: &[u8]) -> (r: Result<Index, LogError>)
        ensures
            match r {
                Ok(index) => index.wf() && recover(image@) == Ok::<State, LogError>(index@),
                Err(e) => recover(image@) == Err::<State, LogError>(e),
            },
    {
        let records = match Log::read_all(image) {
            Ok(records) => records,
            Err(e) => {
                return Err(e);
            },
        };
        let ghost items = records@;
        let ghost all = records.deep_view();
        let mut index = Index::new();
        for record in it: records
            invariant
                it.seq() == items,
                all == items.map_values(|r: LogRecord| r@),
                index.wf(),
                index@ == replay(all.take(it.index() as int)),
        {
            proof {
                let n = it.index() as int;
                assert(all.take(n + 1).drop_last() =~= all.take(n));
                assert(all.take(n + 1).last() == record@);
            }
            apply(&mut index, record);
        }
        assert(all.take(all.len() as int) =~= all);
        Ok(index)
    }

    /// Opens the store on a log image: replays the image into a fresh index
    /// and keeps the image as the log to append to. An empty image is a new
    /// store, without keys.
    ///
    /// Fails, with the reader's error, exactly where the image is not a
    /// sequence of whole records.
    pub fn open(image: Vec<u8>) -> (r: Result<Db, LogError>)
        ensures
            match r {
                Ok(db) => {
                    &&& db.wf()
                    &&& db.image() == image@
                    &&& recover(image@) == Ok::<State, LogError>(db@)
                },
                Err(e) => recover(image@) == Err::<State, LogError>(e),
            },
            image@.len() == 0 ==> r is Ok && r->Ok_0@ == Map::<Seq<char>, Seq<u8>>::empty(),
    {
        let index = match Db::replay_log(image.as_slice()) {
            Ok(index) => index,
            Err(e) => {
                return Err(e);
            },
        };
        let log = Log::open(image);
        Ok(Db { log, index })
    }

    /// Stores `value` under `key`: appends a put record to the log and then,
    /// the record being in the log, gives the key its value in the index.
    /// No other key is touched.
    ///
    /// Fails with `FieldTooLong`, and only then, where the UTF-8 encoding of
    /// the key, or the value, is longer than a length field can say; log and
    /// index are then unchanged.
    pub fn put(&mut self, key: &str, value: &[u8]) -> (r: Result<(), LogError>)
        requires
            old(self).wf(),
        ensures
            final(self).wf(),
            r is Ok <==> encode_utf8(key@).len() <= u32::MAX && value@.len() <= u32::MAX,
            match r {
                Ok(()) => {
                    &&& final(self).image() == old(self).image() + (Record::Put {
                        key: encode_utf8(key@),
                        value: value@,
                    }).encoding()
                    &&& final(self)@ == old(self)@.insert(key@, value@)
                },
                Err(e) => {
                    &&& e == LogError::FieldTooLong
                    &&& final(self).image() == old(self).image()
                    &&& final(self)@ == old(self)@
                },
            },
            forall|other: Seq<char>|
                other != key@ ==> {
                    &&& final(self)@.contains_key(other) == old(self)@.contains_key(other)
                    &&& final(self)@[other] == old(self)@[other]
                },
    {
        match self.log.put(key.as_bytes(), value) {
            Err(e) => Err(e),
            Ok(()) => {
                proof {
                    lemma_recover_append(
                        old(self).log@,
                        Record::Put { key: encode_utf8(key@), value: value@ },
                    );
                    lemma_apply_record_of_text(old(self).index@, key@);
                }
                self.index.insert(key.to_owned(), slice_to_vec(value));
                Ok(())
            },
        }
    }

    /// The value of `key`, or nothing where the key has none. A lookup reads
    /// the index only.
    pub fn get(&self, key: &str) -> (r: Option<&[u8]>)
        requires
            self.wf(),
        ensures
            match r {
                Some(value) => self@.contains_key(key@) && value@ == self@[key@],
                None => !self@.contains_key(key@),
            },
    {
        self.index.get(key)
    }

    /// Removes `key`: appends a delete record to the log and then, the
    /// record being in the log, takes the key out of the index. A key
    /// without a value is logged as deleted all the same. No other key is
    /// touched.
    ///
    /// Fails with `FieldTooLong`, and only then, where the UTF-8 encoding of
    /// the key is longer than a length field can say; log and index are then
    /// unchanged.
    pub fn delete(&mut self, key: &str) -> (r: Result<(), LogError>)
        requires
            old(self).wf(),
        ensures
            final(self).wf(),
            r is Ok <==> encode_utf8(key@).len() <= u32::MAX,
            match r {
                Ok(()) => {
                    &&& final(self).image() == old(self).image() + (Record::Delete {
                        key: encode_utf8(key@),
                    }).encoding()
                    &&& final(self)@ == old(self)@.remove(key@)
                },
                Err(e) => {
                    &&& e == LogError::FieldTooLong
                    &&& final(self).image() == old(self).image()
                    &&& final(self)@ == old(self)@
                },
            },
            forall|other: Seq<char>|
                other != key@ ==> {
                    &&& final(self)@.contains_key(other) == old(self)@.contains_key(other)
                    &&& final(self)@[other] == old(self)@[other]
                },
    {
        match self.log.delete(key.as_bytes()) {
            Err(e) => Err(e),
            Ok(()) => {
                proof {
                    lemma_recover_append(
                        old(self).log@,
                        Record::Delete { key: encode_utf8(key@) },
                    );
                    lemma_apply_record_of_text(old(self).index@, key@);
                }
                self.index.remove(key);
                Ok(())
            },
        }
    }

    /// The keys that have a value: each of them once, and no other, in no
    /// particular order. Whoever wants them sorted sorts them.
    pub fn keys(&self) -> (keys: Vec<String>)
        requires
            self.wf(),
        ensures
            keys.deep_view().no_duplicates(),
            keys.deep_view().to_set() == self@.dom(),
            keys@.len() == self@.len(),
    {
        self.index.keys()
    }

    /// The log of the store.
    pub fn log(&self) -> (log: &Log)
        ensures
            log@ == self.image(),
    {
        &self.log
    }

    /// Closes the store and hands back the image of its log, which holds
    /// every mutation that the store has accepted: opening a store on it
    /// gives the state that this one had.
    pub fn close(self) -> (image: Vec<u8>)
        requires
            self.wf(),
        ensures
            image@ == self.image(),
            recover(image@) == Ok::<State, LogError>(self@),
    {
        self.log.into_bytes()
    }

    /// A store can be rebuilt from its log: the image of the log of a
    /// well-formed store recovers to the state of the store. So appending
    /// any number of records and then opening the image again gives the
    /// state that not reopening would have left.
    pub proof fn lemma_reopen(self)
        requires
            self.wf(),
        ensures
            recover(self.image()) == Ok::<State, LogError>(self@),
    {
    }
}

/// Replaying one more record applies it to what the others replay to.
pub proof fn lemma_replay_push(records: Seq<Record>, record: Record)
    ensures
        replay(records.push(record)) == apply_record(replay(records), record),
{
    assert(records.push(record).drop_last() =~= records);
}

/// Recovery after an append: where `image` recovers to a state, `image`
/// with the encoding of `record` after it recovers to that state with
/// `record` applied.
pub proof fn lemma_recover_append(image: Seq<u8>, record: Record)
    requires
        recover(image) is Ok,
        record.encodable(),
    ensures
        recover(image + record.encoding()) == Ok::<State, LogError>(
            apply_record(recover(image)->Ok_0, record),
        ),
{
    lemma_decode_log_append(image, record);
    lemma_replay_push(decode_log(image)->Ok_0, record);
}

/// A record whose key is the UTF-8 encoding of a text names that text: a
/// put of it inserts there, a delete of it removes there.
pub proof fn lemma_apply_record_of_text(state: State, key: Seq<char>)
    ensures
        forall|value: Seq<u8>|
            #[trigger] apply_record(state, Record::Put { key: encode_utf8(key), value })
                == state.insert(key, value),
        apply_record(state, Record::Delete { key: encode_utf8(key) }) == state.remove(key),
{
    broadcast use vstd::utf8::encode_utf8_decode_utf8, vstd::utf8::encode_utf8_valid_utf8;

}

/// A record leaves alone every key that it does not name: the key has a
/// value afterwards exactly if it had one, and the same one.
pub proof fn lemma_apply_record_elsewhere(state: State, record: Record, key: Seq<char>)
    requires
        !names(record, key),
    ensures
        apply_record(state, record).contains_key(key) == state.contains_key(key),
        apply_record(state, record)[key] == state[key],
{
}

/// The last record that names a key decides: after a replay the key has the
/// value of that record where it is a put, and no value where it is a
/// delete.
pub proof fn lemma_replay_last_record(records: Seq<Record>, key: Seq<char>, i: int)
    requires
        is_last_naming(records, key, i),
    ensures
        match records[i] {
            Record::Put { value, .. } => replay(records).contains_key(key) && replay(
                records,
            )[key] == value,
            Record::Delete { .. } => !replay(records).contains_key(key),
        },
    decreases records.len(),
{
    if i < records.len() - 1 {
        let front = records.drop_last();
        assert(is_last_naming(front, key, i)) by {
            assert forall|j: int| i < j < front.len() implies !names(#[trigger] front[j], key) by {
                assert(front[j] == records[j]);
            }
        }
        lemma_replay_last_record(front, key, i);
        lemma_apply_record_elsewhere(replay(front), records.last(), key);
    }
}

/// A key that no record names has no value after a replay.
pub proof fn lemma_replay_unnamed(records: Seq<Record>, key: Seq<char>)
    requires
        forall|j: int| 0 <= j < records.len() ==> !names(#[trigger] records[j], key),
    ensures
        !replay(records).contains_key(key),
    decreases records.len(),
{
    if records.len() > 0 {
        let front = records.drop_last();
        assert forall|j: int| 0 <= j < front.len() implies !names(#[trigger] front[j], key) by {
            assert(front[j] == records[j]);
        }
        lemma_replay_unnamed(front, key);
        lemma_apply_record_elsewhere(replay(front), records.last(), key);
    }
}

/// Replaying the records of a sequence of calls gives the mapping that the
/// same calls make directly in memory.
pub proof fn lemma_replay_is_direct(operations: Seq<Operation>)
    ensures
        replay(records_of(operations)) == apply_all(operations),
    decreases operations.len(),
{
    if operations.len() > 0 {
        let front = operations.drop_last();
        lemma_replay_is_direct(front);
        assert(records_of(operations).drop_last() =~= records_of(front));
        match operations.last() {
            Operation::Put { key, value } => {
                lemma_apply_record_of_text(apply_all(front), key);
            },
            Operation::Delete { key } => {
                lemma_apply_record_of_text(apply_all(front), key);
            },
        }
    }
}

/// Recovering from the log that a sequence of calls has written gives the
/// mapping that the same calls make directly in memory, as long as every
/// key and value is short enough to be logged.
pub proof fn lemma_recover_is_direct(operations: Seq<Operation>)
    requires
        all_encodable(records_of(operations)),
    ensures
        recover(encode_log(records_of(operations))) == Ok::<State, LogError>(
            apply_all(operations),
        ),
{
    lemma_encode_then_decode(records_of(operations));
    lemma_replay_is_direct(operations);
}

} // verus!

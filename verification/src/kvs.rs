//! The store: a log and the index of its live keys, kept in step.
//!
//! To contracts a store is the map from keys to values that replaying its log
//! gives.  `set` and `remove` append to the log and then compact it when it
//! has grown to the threshold; neither the appending nor the compaction
//! changes any key's value but the one the operation names.
use crate::error::KvError;
use crate::index::{lemma_entries_map_len, KeyIndex};
use crate::kvls::{raised, written, KvLogStore, LogWrite};
use crate::log::{lemma_records_of, log_text, records_of};
use crate::model::{
    binds_each_once, contents, lemma_binds_each_once, lemma_compaction_keeps_contents,
    lemma_index_points_at_values, lemma_live_offsets, live_offsets,
};
use crate::record::RecordView;
use vstd::prelude::*;

verus! {

/// A persistent map from keys to values, kept as a log of commands.
#[derive(Debug)]
pub struct KvStore {
    kvmap: KeyIndex,
    kvlog: KvLogStore,
}

impl View for KvStore {
    type V = Map<Seq<char>, Seq<char>>;

    /// What the store holds: the contents of its log.
    open spec fn view(&self) -> Map<Seq<char>, Seq<char>> {
        contents(self.log().records())
    }
}

impl KvStore {
    /// The log of the store.
    pub closed spec fn log(&self) -> KvLogStore {
        self.kvlog
    }

    /// The index of the store.
    pub closed spec fn index(&self) -> KeyIndex {
        self.kvmap
    }

    /// The store is well formed: its log and its index are, and the index
    /// holds, for each live key of the log and for no other key, the offset
    /// of the record that gave the key its value.
    pub open spec fn wf(&self) -> bool {
        &&& self.log().wf()
        &&& self.index().wf()
        &&& self.index()@ == live_offsets(self.log().records())
    }

    /// The log after `record` is appended and the log is compacted if it is
    /// due: the count of its records, and what holds of the records.
    pub open spec fn follows(&self, before: KvStore, record: RecordView) -> bool {
        let appended = before.log().records().push(record);
        if before.log().count() + 1 < before.log().threshold() {
            &&& self.log().records() == appended
            &&& self.log().count() == before.log().count() + 1
            &&& self.log().threshold() == before.log().threshold()
            &&& self.log().replaced() == before.log().replaced()
            &&& self.log().saved_len() == before.log().saved_len()
        } else {
            &&& binds_each_once(self.log().records())
            &&& self.log().count() == self@.dom().len()
            &&& self.log().threshold() == raised(before.log().threshold(), self.log().count())
            &&& self.log().replaced()
        }
    }

    /// The index points at the current value of each key, and holds every
    /// key that has one.
    pub proof fn lemma_wf(&self)
        requires
            self.wf(),
        ensures
            self.index()@.dom() == self@.dom(),
            forall|k: Seq<char>| #[trigger]
                self@.contains_key(k) ==> crate::model::value_at(
                    self.log().image(),
                    self.index()@[k] as int,
                    k,
                ) == Some(self@[k]),
    {
        self.log().lemma_wf();
        lemma_live_offsets(self.log().records());
        assert forall|k: Seq<char>| #[trigger] self@.contains_key(k) implies crate::model::value_at(
            self.log().image(),
            self.index()@[k] as int,
            k,
        ) == Some(self@[k]) by {
            assert(live_offsets(self.log().records()).contains_key(k));
        }
    }

    /// Opens the store over the bytes `image` of its log file: replays the
    /// log from its first byte and builds the index.  Bytes that are not the
    /// text of records, up to the last one, are `Corruption`: a log that ends
    /// within a record is not opened.
    pub fn open(image: Vec<u8>) -> (out: Result<KvStore, KvError>)
        ensures
            match records_of(image@) {
                Some(rs) => {
                    &&& out is Ok
                    &&& out.unwrap().wf()
                    &&& out.unwrap()@ == contents(rs)
                    &&& out.unwrap().log().image() == image@
                    &&& out.unwrap().log().count() == rs.len()
                    &&& out.unwrap().log().threshold() == 1024
                    &&& out.unwrap().log().saved_len() == image@.len()
                    &&& !out.unwrap().log().replaced()
                },
                None => out is Err && out.unwrap_err() == KvError::Corruption,
            },
            image@.len() == 0 ==> out is Ok && out.unwrap()@ == Map::<
                Seq<char>,
                Seq<char>,
            >::empty(),
    {
        proof {
            lemma_records_of(Seq::<RecordView>::empty());
            assert(log_text(Seq::<RecordView>::empty()) =~= Seq::<u8>::empty());
            if image@.len() == 0 {
                assert(image@ =~= Seq::<u8>::empty());
            }
        }
        let mut kvlog = match KvLogStore::new(image) {
            Ok(kvlog) => kvlog,
            Err(e) => {
                return Err(e);
            },
        };
        match kvlog.build_map() {
            Ok(kvmap) => Ok(KvStore { kvmap, kvlog }),
            Err(e) => Err(e),
        }
    }

    /// Compacts the log if it is due, and tells whether it did.
    fn compact_if_due(&mut self) -> (out: Result<bool, KvError>)
        requires
            old(self).wf(),
        ensures
            final(self).wf(),
            final(self)@ == old(self)@,
            out == Ok::<bool, KvError>(old(self).log().count() >= old(self).log().threshold()),
            if old(self).log().count() < old(self).log().threshold() {
                *final(self) == *old(self)
            } else {
                &&& binds_each_once(final(self).log().records())
                &&& final(self).log().count() == final(self)@.dom().len()
                &&& final(self).log().threshold() == raised(
                    old(self).log().threshold(),
                    final(self).log().count(),
                )
                &&& final(self).log().replaced()
            },
    {
        proof {
            self.kvlog.lemma_wf();
            lemma_index_points_at_values(self.kvlog.records(), self.kvmap.entries());
            lemma_compaction_keeps_contents(self.kvlog.records(), self.kvmap.entries());
        }
        let out = self.kvlog.do_compaction(&mut self.kvmap);
        proof {
            if old(self).log().count() >= old(self).log().threshold() {
                self.kvlog.lemma_wf();
                lemma_binds_each_once(self.kvlog.records());
                self.lemma_wf();
                lemma_entries_map_len(self.kvmap.entries());
            }
        }
        out
    }

    /// Binds `key` to `value`: appends the record to the log and points the
    /// index at it; then compacts the log if it is due.
    pub fn set(&mut self, key: String, value: String) -> (out: Result<(), KvError>)
        requires
            old(self).wf(),
        ensures
            final(self).wf(),
            out is Ok,
            final(self)@ == old(self)@.insert(key@, value@),
            final(self).follows(*old(self), RecordView::SetKey { key: key@, value: value@ }),
    {
        let pos = match self.kvlog.set(key.as_str(), value.as_str()) {
            Ok(pos) => pos,
            Err(e) => {
                return Err(e);
            },
        };
        proof {
            let rs = old(self).log().records();
            assert(rs.push(RecordView::SetKey { key: key@, value: value@ }).drop_last() =~= rs);
            old(self).log().lemma_wf();
        }
        let _ = self.kvmap.insert(key, pos);
        match self.compact_if_due() {
            Ok(_) => Ok(()),
            Err(e) => Err(e),
        }
    }

    /// The value of `key`, if the key has one.  The value is read from the
    /// log, at the offset that the index holds for the key.
    pub fn get(&mut self, key: String) -> (out: Result<Option<String>, KvError>)
        requires
            old(self).wf(),
        ensures
            *final(self) == *old(self),
            out is Ok,
            match out.unwrap() {
                Some(value) => old(self)@.contains_key(key@) && old(self)@[key@] == value@,
                None => !old(self)@.contains_key(key@),
            },
    {
        proof {
            self.lemma_wf();
        }
        match self.kvmap.get(key.as_str()) {
            Some(pos) => {
                assert(self@.contains_key(key@));
                match self.kvlog.get_at_offset(key.as_str(), pos) {
                    Ok(value) => Ok(Some(value)),
                    Err(e) => Err(e),
                }
            },
            None => Ok(None),
        }
    }

    /// Unbinds `key`: appends the record to the log and takes the key out of
    /// the index; then compacts the log if it is due.  A key that has no
    /// value is `KeyNotFound`, and nothing is written for it.
    pub fn remove(&mut self, key: String) -> (out: Result<(), KvError>)
        requires
            old(self).wf(),
        ensures
            final(self).wf(),
            if old(self)@.contains_key(key@) {
                &&& out is Ok
                &&& final(self)@ == old(self)@.remove(key@)
                &&& final(self).follows(*old(self), RecordView::RemoveKey { key: key@ })
            } else {
                &&& out is Err
                &&& out.unwrap_err() == KvError::KeyNotFound
                &&& *final(self) == *old(self)
            },
    {
        proof {
            self.lemma_wf();
        }
        if !self.kvmap.contains_key(key.as_str()) {
            return Err(KvError::KeyNotFound);
        }
        match self.kvlog.remove(key.as_str()) {
            Ok(()) => {},
            Err(e) => {
                return Err(e);
            },
        }
        proof {
            let rs = old(self).log().records();
            assert(rs.push(RecordView::RemoveKey { key: key@ }).drop_last() =~= rs);
        }
        let _ = self.kvmap.remove(key.as_str());
        match self.compact_if_due() {
            Ok(_) => Ok(()),
            Err(e) => Err(e),
        }
    }

    /// How many keys have a value.
    pub fn len(&self) -> (n: usize)
        requires
            self.wf(),
        ensures
            n == self@.dom().len(),
            self@.dom().finite(),
    {
        proof {
            self.lemma_wf();
        }
        self.kvmap.len()
    }

    /// The bytes of the log.
    pub fn log_bytes(&self) -> (bytes: &Vec<u8>)
        ensures
            bytes@ == self.log().image(),
    {
        self.kvlog.as_bytes()
    }

    /// How many records the log holds.
    pub fn num_entries(&self) -> (n: usize)
        ensures
            n == self.log().count(),
    {
        self.kvlog.num_entries()
    }

    /// The count of records at which the log is compacted.
    pub fn max_entries(&self) -> (n: usize)
        ensures
            n == self.log().threshold(),
    {
        self.kvlog.max_entries()
    }

    /// Tells what the caller has to write so that the log file holds the
    /// log, and takes it as written.  Carried out on a file that holds what
    /// was saved before, the answer leaves the file equal to the log.
    pub fn take_unsaved(&mut self) -> (out: LogWrite)
        requires
            old(self).wf(),
        ensures
            final(self).wf(),
            final(self)@ == old(self)@,
            final(self).index() == old(self).index(),
            final(self).log().image() == old(self).log().image(),
            final(self).log().count() == old(self).log().count(),
            final(self).log().threshold() == old(self).log().threshold(),
            final(self).log().saved_len() == old(self).log().image().len(),
            !final(self).log().replaced(),
            old(self).log().owes(out),
            forall|disk: Seq<u8>| #[trigger]
                old(self).log().mirrors(disk) ==> written(out, disk) == final(self).log().image(),
    {
        self.kvlog.take_unsaved()
    }
}

} // verus!

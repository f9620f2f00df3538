//! The log store: the image of the log file, the count of its records, and
//! the threshold at which it is compacted.
//!
//! The store never touches a file.  It is made from the bytes of the log,
//! appends to its image, and tells the caller, when asked, which bytes are
//! not yet saved and whether they go behind the saved ones or replace them.
use crate::error::KvError;
use crate::index::{same_text, KeyIndex};
use crate::json::{has_at, lemma_has_at_concat};
use crate::log::{
    lemma_log_text_push, lemma_log_text_step, lemma_log_text_take, lemma_records_of,
    lemma_stops_short, log_text, offset_of, records_of,
};
use crate::model::{compacted, live_offsets, offsets_in_order, points_at_values, value_at};
use crate::record::{
    decode_at, encode_entry, lemma_record_text_len, record_text, Record, RecordView,
};
use vstd::prelude::*;

verus! {

/// What the caller has to write so that the file holds the image.
#[derive(Debug, Clone, PartialEq, Eq)]
pub enum LogWrite {
    /// The file holds the image already.
    Nothing,
    /// These bytes go behind what the file holds.
    Append(Vec<u8>),
    /// These bytes become the file: they are written to a temporary file,
    /// which then takes the place of the log.
    Replace(Vec<u8>),
}

/// What a file that held `disk` holds once `write` is carried out.
pub open spec fn written(write: LogWrite, disk: Seq<u8>) -> Seq<u8> {
    match write {
        LogWrite::Nothing => disk,
        LogWrite::Append(more) => disk + more@,
        LogWrite::Replace(all) => all@,
    }
}

/// The threshold after a compaction that left `live` records: what it was,
/// or twice the records left if that is more.
pub open spec fn raised(threshold: int, live: int) -> int {
    if threshold >= 2 * live {
        threshold
    } else {
        2 * live
    }
}

/// The log store.
#[derive(Debug)]
pub struct KvLogStore {
    bytes: Vec<u8>,
    num_entries: usize,
    max_entries: usize,
    saved: usize,
    replaced: bool,
}

impl KvLogStore {
    /// The bytes of the log.
    pub closed spec fn image(&self) -> Seq<u8> {
        self.bytes@
    }

    /// How many records were read from the log or written to it since it was
    /// last compacted.
    pub closed spec fn count(&self) -> int {
        self.num_entries as int
    }

    /// The count of records at which the log is compacted.
    pub closed spec fn threshold(&self) -> int {
        self.max_entries as int
    }

    /// How many bytes at the front of the image the caller has saved.
    pub closed spec fn saved_len(&self) -> int {
        self.saved as int
    }

    /// Whether the log was compacted since the caller last saved.
    pub closed spec fn replaced(&self) -> bool {
        self.replaced
    }

    /// The records of the log.
    pub open spec fn records(&self) -> Seq<RecordView> {
        records_of(self.image()).unwrap()
    }

    /// What is saved is part of the image, and the image has a length that
    /// a vector can have.
    pub open spec fn sound(&self) -> bool {
        0 <= self.saved_len() <= self.image().len() <= usize::MAX
    }

    /// The store is well formed: it is sound, and its image is the log of
    /// some records, which it has counted.
    pub open spec fn wf(&self) -> bool {
        &&& self.sound()
        &&& records_of(self.image()) is Some
        &&& self.count() == self.records().len()
    }

    /// `write` is what the caller has to write: nothing where all is saved,
    /// the whole log where it was compacted, and else the bytes behind the
    /// saved ones.
    pub open spec fn owes(&self, write: LogWrite) -> bool {
        match write {
            LogWrite::Nothing => !self.replaced() && self.saved_len() == self.image().len(),
            LogWrite::Append(more) => {
                &&& !self.replaced()
                &&& self.saved_len() < self.image().len()
                &&& more@ == self.image().skip(self.saved_len())
            },
            LogWrite::Replace(all) => self.replaced() && all@ == self.image(),
        }
    }

    /// The file `disk` holds what the store takes to be saved.
    pub open spec fn mirrors(&self, disk: Seq<u8>) -> bool {
        self.replaced() || disk == self.image().take(self.saved_len())
    }

    /// A log store over the bytes `image` of a log file.  Nothing is read
    /// yet: `build_map` reads the records and counts them.
    pub fn new(image: Vec<u8>) -> (out: Result<KvLogStore, KvError>)
        ensures
            out is Ok,
            out.unwrap().image() == image@,
            out.unwrap().count() == 0,
            out.unwrap().threshold() == 1024,
            out.unwrap().saved_len() == image@.len(),
            !out.unwrap().replaced(),
            out.unwrap().sound(),
    {
        let saved = image.len();
        Ok(KvLogStore { bytes: image, num_entries: 0, max_entries: 1024, saved, replaced: false })
    }

    /// The bytes of the log.
    pub fn as_bytes(&self) -> (bytes: &Vec<u8>)
        ensures
            bytes@ == self.image(),
    {
        &self.bytes
    }

    /// How many records the log holds, once they are counted.
    pub fn num_entries(&self) -> (n: usize)
        ensures
            n == self.count(),
    {
        self.num_entries
    }

    /// The count of records at which the log is compacted.
    pub fn max_entries(&self) -> (n: usize)
        ensures
            n == self.threshold(),
    {
        self.max_entries
    }

    /// The log of a well-formed store is the text of its records, and each
    /// record takes at least nineteen bytes of it.
    pub proof fn lemma_wf(&self)
        requires
            self.wf(),
        ensures
            log_text(self.records()) == self.image(),
            19 * self.count() <= self.image().len(),
    {
        let rs = self.records();
        lemma_log_text_take(rs, 0);
        assert(log_text(rs.take(0)).len() == 0);
    }

    /// Writes the record for `key` and `value` behind the log and counts it;
    /// gives the offset at which the record begins.
    fn commit_operation(&mut self, key: &str, value: Option<&str>) -> (pos: u64)
        requires
            old(self).wf(),
        ensures
            final(self).wf(),
            pos == old(self).image().len(),
            final(self).records() == old(self).records().push(
                match value {
                    Some(v) => RecordView::SetKey { key: key@, value: v@ },
                    None => RecordView::RemoveKey { key: key@ },
                },
            ),
            final(self).image() == old(self).image() + record_text(
                match value {
                    Some(v) => RecordView::SetKey { key: key@, value: v@ },
                    None => RecordView::RemoveKey { key: key@ },
                },
            ),
            final(self).count() == old(self).count() + 1,
            final(self).threshold() == old(self).threshold(),
            final(self).saved_len() == old(self).saved_len(),
            final(self).replaced() == old(self).replaced(),
    {
        let ghost record = match value {
            Some(v) => RecordView::SetKey { key: key@, value: v@ },
            None => RecordView::RemoveKey { key: key@ },
        };
        proof {
            self.lemma_wf();
            lemma_log_text_push(self.records(), record);
            lemma_records_of(self.records().push(record));
        }
        let text = encode_entry(key, value);
        let start = self.bytes.len();
        self.bytes.extend_from_slice(text.as_slice());
        self.num_entries = self.num_entries + 1;
        assert(self.image() == log_text(old(self).records().push(record)));
        assert(self.bytes@.len() == self.bytes.len());
        start as u64
    }

    /// Appends a `SetKey` record for `key` and `value`, and gives the offset
    /// at which it begins.
    pub fn set(&mut self, key: &str, value: &str) -> (out: Result<u64, KvError>)
        requires
            old(self).wf(),
        ensures
            final(self).wf(),
            out == Ok::<u64, KvError>(old(self).image().len() as u64),
            final(self).records() == old(self).records().push(
                RecordView::SetKey { key: key@, value: value@ },
            ),
            final(self).image() == old(self).image() + record_text(
                RecordView::SetKey { key: key@, value: value@ },
            ),
            final(self).count() == old(self).count() + 1,
            final(self).threshold() == old(self).threshold(),
            final(self).saved_len() == old(self).saved_len(),
            final(self).replaced() == old(self).replaced(),
    {
        let pos = self.commit_operation(key, Some(value));
        Ok(pos)
    }

    /// Appends a `RemoveKey` record for `key`.
    pub fn remove(&mut self, key: &str) -> (out: Result<(), KvError>)
        requires
            old(self).wf(),
        ensures
            final(self).wf(),
            out is Ok,
            final(self).records() == old(self).records().push(RecordView::RemoveKey { key: key@ }),
            final(self).image() == old(self).image() + record_text(
                RecordView::RemoveKey { key: key@ },
            ),
            final(self).count() == old(self).count() + 1,
            final(self).threshold() == old(self).threshold(),
            final(self).saved_len() == old(self).saved_len(),
            final(self).replaced() == old(self).replaced(),
    {
        let _ = self.commit_operation(key, None);
        Ok(())
    }

    /// Reads the record at `pos` and gives its value.  The record must be a
    /// `SetKey` record for `key`: anything else there, or nothing, is
    /// `Corruption`.
    pub fn get_at_offset(&self, key: &str, pos: u64) -> (out: Result<String, KvError>)
        ensures
            match value_at(self.image(), pos as int, key@) {
                Some(value) => out is Ok && out.unwrap()@ == value,
                None => out == Err::<String, KvError>(KvError::Corruption),
            },
    {
        let size = self.bytes.len();
        if pos > size as u64 {
            proof {
                assert forall|r: RecordView| !has_at(self.image(), pos as int, record_text(r)) by {}
            }
            return Err(KvError::Corruption);
        }
        match decode_at(&self.bytes, pos as usize) {
            Some((Record::SetKey { key: found, value }, _)) => {
                if same_text(found.as_str(), key) {
                    Ok(value)
                } else {
                    Err(KvError::Corruption)
                }
            },
            _ => Err(KvError::Corruption),
        }
    }

    /// Reads the log from its first byte and builds the index of its live
    /// keys; counts the records.  A log that is not the text of records, up to
    /// its last byte, is `Corruption`, and is then left uncounted.
    pub fn build_map(&mut self) -> (out: Result<KeyIndex, KvError>)
        requires
            old(self).sound(),
        ensures
            final(self).image() == old(self).image(),
            final(self).threshold() == old(self).threshold(),
            final(self).saved_len() == old(self).saved_len(),
            final(self).replaced() == old(self).replaced(),
            match records_of(old(self).image()) {
                Some(rs) => out is Ok && out.unwrap().wf() && out.unwrap()@ == live_offsets(rs)
                    && final(self).count() == rs.len() && final(self).wf(),
                None => out is Err && out.unwrap_err() == KvError::Corruption && final(self).count()
                    == old(self).count(),
            },
    {
        let mut map = KeyIndex::new();
        let mut pos: usize = 0;
        let mut seen: usize = 0;
        let ghost mut done: Seq<RecordView> = Seq::empty();
        let size = self.bytes.len();
        assert(self.bytes@.subrange(0, 0) =~= log_text(done));
        while pos < size
            invariant
                *self == *old(self),
                size == self.bytes@.len(),
                pos <= size,
                map.wf(),
                has_at(self.bytes@, 0, log_text(done)),
                log_text(done).len() == pos,
                map@ == live_offsets(done),
                seen == done.len(),
                19 * seen <= pos,
            decreases size - pos,
        {
            match decode_at(&self.bytes, pos) {
                None => {
                    proof {
                        let front = self.bytes@.take(pos as int);
                        assert(front =~= self.bytes@.subrange(0, pos as int));
                        lemma_stops_short(self.bytes@, done, pos as int);
                    }
                    return Err(KvError::Corruption);
                },
                Some((record, end)) => {
                    proof {
                        lemma_has_at_concat(self.bytes@, 0, log_text(done), record_text(record@));
                        lemma_log_text_push(done, record@);
                        assert(done.push(record@).drop_last() =~= done);
                        lemma_record_text_len(record@);
                    }
                    match record {
                        Record::SetKey { key, value: _ } => {
                            let _ = map.insert(key, pos as u64);
                        },
                        Record::RemoveKey { key } => {
                            let _ = map.remove(key.as_str());
                        },
                    }
                    proof {
                        done = done.push(record@);
                    }
                    seen = seen + 1;
                    pos = end;
                },
            }
        }
        proof {
            assert(self.bytes@.subrange(0, size as int) =~= self.bytes@);
            lemma_records_of(done);
        }
        self.num_entries = seen;
        Ok(map)
    }

    /// Whether the log is due for compaction: it is, once it holds as many
    /// records as the threshold says.
    fn compaction_analysis(&self) -> (due: bool)
        ensures
            due == (self.count() >= self.threshold()),
    {
        self.num_entries >= self.max_entries
    }

    /// Compacts the log, if it is due: writes one `SetKey` record for each key
    /// of `map`, in the order of `map`, with the value found at the key's
    /// offset in the old log; makes these records the log, and gives each key
    /// in `map` its new offset.  The count of records is then the number of
    /// keys, and the threshold at least twice that.
    ///
    /// Tells whether the log was compacted.  Where some key of `map` does not
    /// point at a `SetKey` record of its own, the outcome is `Corruption`, and
    /// the log and `map` stay as they were.
    pub fn do_compaction(&mut self, map: &mut KeyIndex) -> (out: Result<bool, KvError>)
        requires
            old(self).wf(),
            old(map).wf(),
        ensures
            final(self).wf(),
            final(map).wf(),
            old(self).count() < old(self).threshold() ==> out == Ok::<bool, KvError>(false)
                && *final(self) == *old(self) && *final(map) == *old(map),
            old(self).count() >= old(self).threshold() && !points_at_values(
                old(self).image(),
                old(map).entries(),
            ) ==> out == Err::<bool, KvError>(KvError::Corruption) && *final(self) == *old(self)
                && *final(map) == *old(map),
            old(self).count() >= old(self).threshold() && points_at_values(
                old(self).image(),
                old(map).entries(),
            ) ==> {
                let fresh = compacted(old(self).image(), old(map).entries());
                &&& out == Ok::<bool, KvError>(true)
                &&& final(self).records() == fresh
                &&& final(self).image() == log_text(fresh)
                &&& final(map).entries() == offsets_in_order(fresh)
                &&& final(self).count() == old(map).entries().len()
                &&& final(self).threshold() == raised(old(self).threshold(), fresh.len() as int)
                &&& final(self).replaced()
                &&& final(self).saved_len() == 0
            },
    {
        if !self.compaction_analysis() {
            return Ok(false);
        }
        let live = map.len();
        let ghost es = map.entries();
        let ghost fresh = compacted(self.bytes@, es);
        let mut text: Vec<u8> = Vec::new();
        let mut starts: Vec<u64> = Vec::new();
        let mut i: usize = 0;
        assert(fresh.take(0) =~= Seq::<RecordView>::empty());
        while i < live
            invariant
                *self == *old(self),
                *map == *old(map),
                self.wf(),
                map.wf(),
                self.count() >= self.threshold(),
                es == map.entries(),
                fresh == compacted(self.bytes@, es),
                live == es.len(),
                i <= live,
                forall|j: int|
                    0 <= j < i ==> value_at(self.bytes@, (#[trigger] es[j]).1 as int, es[j].0)
                        is Some,
                text@ == log_text(fresh.take(i as int)),
                starts@.len() == i,
                forall|j: int| 0 <= j < i ==> #[trigger] starts@[j] == offset_of(fresh, j) as u64,
            decreases live - i,
        {
            let key = map.key_at(i);
            let pos = map.offset_at(i);
            match self.get_at_offset(key.as_str(), pos) {
                Err(_) => {
                    assert(value_at(self.bytes@, es[i as int].1 as int, es[i as int].0) is None);
                    return Err(KvError::Corruption);
                },
                Ok(value) => {
                    let record = encode_entry(key.as_str(), Some(value.as_str()));
                    proof {
                        lemma_log_text_step(fresh, i as int);
                        assert(fresh[i as int] == RecordView::SetKey {
                            key: key@,
                            value: value@,
                        });
                    }
                    starts.push(text.len() as u64);
                    text.extend_from_slice(record.as_slice());
                },
            }
            i += 1;
        }
        proof {
            assert(fresh.take(live as int) =~= fresh);
            lemma_records_of(fresh);
            lemma_log_text_take(fresh, 0);
            assert(log_text(fresh.take(0)).len() == 0);
            assert(points_at_values(self.bytes@, es));
        }
        let mut j: usize = 0;
        while j < live
            invariant
                *self == *old(self),
                map.wf(),
                live == es.len(),
                fresh.len() == live,
                j <= live,
                starts@.len() == live,
                map.entries().len() == live,
                text@ == log_text(fresh),
                records_of(text@) == Some(fresh),
                19 * live <= text@.len(),
                points_at_values(self.bytes@, es),
                forall|t: int|
                    0 <= t < live ==> #[trigger] starts@[t] == offset_of(fresh, t) as u64,
                forall|t: int| 0 <= t < live ==> (#[trigger] fresh[t]).key() == es[t].0,
                forall|t: int|
                    0 <= t < live ==> #[trigger] map.entries()[t] == if t < j {
                        (es[t].0, starts@[t])
                    } else {
                        es[t]
                    },
            decreases live - j,
        {
            map.set_offset(j, starts[j]);
            j += 1;
        }
        assert(map.entries() =~= offsets_in_order(fresh));
        let size = text.len();
        assert(19 * live <= size);
        self.bytes = text;
        self.num_entries = live;
        if self.max_entries < 2 * live {
            self.max_entries = 2 * live;
        }
        self.saved = 0;
        self.replaced = true;
        Ok(true)
    }

    /// Tells what the caller has to write so that the file holds the image,
    /// and takes it as written.  Carried out on a file that holds what was
    /// saved before, the answer leaves the file equal to the image.
    pub fn take_unsaved(&mut self) -> (out: LogWrite)
        requires
            old(self).wf(),
        ensures
            final(self).wf(),
            final(self).image() == old(self).image(),
            final(self).count() == old(self).count(),
            final(self).threshold() == old(self).threshold(),
            final(self).saved_len() == old(self).image().len(),
            !final(self).replaced(),
            old(self).owes(out),
            forall|disk: Seq<u8>| #[trigger]
                old(self).mirrors(disk) ==> written(out, disk) == final(self).image(),
    {
        let size = self.bytes.len();
        let from: usize = if self.replaced {
            0
        } else {
            self.saved
        };
        let mut part: Vec<u8> = Vec::new();
        let mut k: usize = from;
        while k < size
            invariant
                *self == *old(self),
                size == self.bytes@.len(),
                from <= k <= size,
                part@ == self.bytes@.subrange(from as int, k as int),
            decreases size - k,
        {
            part.push(self.bytes[k]);
            assert(part@ =~= self.bytes@.subrange(from as int, k + 1));
            k += 1;
        }
        let was_replaced = self.replaced;
        self.saved = size;
        self.replaced = false;
        assert(part@ =~= self.bytes@.skip(from as int));
        assert(self.bytes@.take(from as int) + self.bytes@.skip(from as int) =~= self.bytes@);
        if was_replaced {
            LogWrite::Replace(part)
        } else if from < size {
            LogWrite::Append(part)
        } else {
            LogWrite::Nothing
        }
    }
}

} // verus!

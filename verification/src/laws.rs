//! What holds of the store over several operations, proved from the
//! contracts of the operations and from the meaning of the log.
use crate::index::{distinct_keys, entries_map, lemma_entries_map_len};
use crate::json::lemma_has_at_extend;
use crate::kvls::{written, LogWrite};
use crate::kvs::KvStore;
use crate::log::{
    lemma_log_text_push, lemma_log_text_take, lemma_record_stands, lemma_records_of, log_text,
    records_of,
};
use crate::model::{
    apply_record, binds_each_once, compacted, contents, lemma_compaction_keeps_contents,
    lemma_live_offsets, lemma_value_at, live_offsets, offsets_in_order, points_at_values,
};
use crate::record::{lemma_record_at, record_at, record_text, RecordView};
use vstd::prelude::*;

verus! {

/// A command given to the store.
pub enum Command {
    SetKey { key: Seq<char>, value: Seq<char> },
    RemoveKey { key: Seq<char> },
}

/// A plain map after the commands `cmds`, carried out from first to last on
/// the empty map; removing a key that is not there changes nothing.
pub open spec fn reference_map(cmds: Seq<Command>) -> Map<Seq<char>, Seq<char>>
    decreases cmds.len(),
{
    if cmds.len() == 0 {
        Map::empty()
    } else {
        let before = reference_map(cmds.drop_last());
        match cmds.last() {
            Command::SetKey { key, value } => before.insert(key, value),
            Command::RemoveKey { key } => before.remove(key),
        }
    }
}

/// The records that the commands `cmds` leave in a log that starts empty and
/// is not compacted: one for each `SetKey`, and one for each `RemoveKey` of a key
/// that has a value at that moment.
pub open spec fn records_written(cmds: Seq<Command>) -> Seq<RecordView>
    decreases cmds.len(),
{
    if cmds.len() == 0 {
        Seq::empty()
    } else {
        let before = records_written(cmds.drop_last());
        match cmds.last() {
            Command::SetKey { key, value } => before.push(RecordView::SetKey { key, value }),
            Command::RemoveKey { key } => if reference_map(cmds.drop_last()).contains_key(key) {
                before.push(RecordView::RemoveKey { key })
            } else {
                before
            },
        }
    }
}

/// The store is a map: after any commands, the log that they leave has the
/// contents that a plain map has after the same commands.
pub proof fn law_store_is_a_map(cmds: Seq<Command>)
    ensures
        contents(records_written(cmds)) == reference_map(cmds),
    decreases cmds.len(),
{
    if cmds.len() > 0 {
        let init = cmds.drop_last();
        law_store_is_a_map(init);
        let before = records_written(init);
        match cmds.last() {
            Command::SetKey { key, value } => {
                assert(before.push(RecordView::SetKey { key, value }).drop_last() =~= before);
            },
            Command::RemoveKey { key } => {
                if reference_map(init).contains_key(key) {
                    assert(before.push(RecordView::RemoveKey { key }).drop_last() =~= before);
                } else {
                    assert(reference_map(init).remove(key) =~= reference_map(init));
                }
            },
        }
    }
}

/// Closing and opening again keeps what the store holds: the bytes of a
/// well-formed store's log are a log, and replaying them gives the store's
/// contents.
pub proof fn law_reopen(store: KvStore)
    requires
        store.wf(),
    ensures
        records_of(store.log().image()) is Some,
        contents(records_of(store.log().image()).unwrap()) == store@,
{
}

/// What the caller saves is what is opened next: on a file that holds what
/// the store takes to be saved, carrying out what the store says is owed
/// leaves the log, which opens to the store's contents.
pub proof fn law_saved_log_reopens(store: KvStore, write: LogWrite, disk: Seq<u8>)
    requires
        store.wf(),
        store.log().owes(write),
        store.log().mirrors(disk),
    ensures
        written(write, disk) == store.log().image(),
        records_of(written(write, disk)) is Some,
        contents(records_of(written(write, disk)).unwrap()) == store@,
{
    let image = store.log().image();
    let saved = store.log().saved_len();
    assert(image.take(saved) + image.skip(saved) =~= image);
    if write is Nothing {
        assert(image.take(saved) =~= image);
    }
}

/// A file that holds what the store takes to be saved still does so after
/// `set` or `remove`: the operations append to the log or replace it, and
/// never change a byte that is saved.
pub proof fn law_saved_stays_saved(
    before: KvStore,
    after: KvStore,
    record: RecordView,
    disk: Seq<u8>,
)
    requires
        before.wf(),
        after.wf(),
        after.follows(before, record),
        before.log().mirrors(disk),
    ensures
        after.log().mirrors(disk),
{
    if !after.log().replaced() {
        before.log().lemma_wf();
        after.log().lemma_wf();
        lemma_log_text_push(before.log().records(), record);
        let saved = before.log().saved_len();
        assert(after.log().image().take(saved) =~= before.log().image().take(saved));
    }
}

/// Compaction keeps what the store holds and leaves one record for each live
/// key: where the index `es` is that of the log `rs`, the compacted log has
/// the contents of `rs`, and as many records as `rs` has live keys.
pub proof fn law_compaction(rs: Seq<RecordView>, es: Seq<(Seq<char>, u64)>)
    requires
        log_text(rs).len() <= u64::MAX,
        distinct_keys(es),
        entries_map(es) == live_offsets(rs),
    ensures
        contents(compacted(log_text(rs), es)) == contents(rs),
        compacted(log_text(rs), es).len() == contents(rs).dom().len(),
        binds_each_once(compacted(log_text(rs), es)),
{
    lemma_compaction_keeps_contents(rs, es);
    lemma_entries_map_len(es);
    lemma_live_offsets(rs);
}

/// Compacting a compacted log changes nothing: the records written for the
/// index of a compacted log are the records of that log, at the same
/// offsets.
pub proof fn law_compaction_twice(bytes: Seq<u8>, es: Seq<(Seq<char>, u64)>)
    requires
        distinct_keys(es),
        points_at_values(bytes, es),
        log_text(compacted(bytes, es)).len() <= u64::MAX,
    ensures
        compacted(log_text(compacted(bytes, es)), offsets_in_order(compacted(bytes, es)))
            == compacted(bytes, es),
        offsets_in_order(
            compacted(log_text(compacted(bytes, es)), offsets_in_order(compacted(bytes, es))),
        ) == offsets_in_order(compacted(bytes, es)),
{
    let once = compacted(bytes, es);
    let pairs = offsets_in_order(once);
    let twice = compacted(log_text(once), pairs);
    assert forall|i: int| 0 <= i < once.len() implies twice[i] == once[i] by {
        lemma_record_stands(once, i);
        lemma_log_text_take(once, i);
        lemma_value_at(log_text(once), pairs[i].1 as int, once[i].key(), once[i]->value);
    }
    assert(twice =~= once);
}

/// Reading what was written gives it back: the text of a record, whatever
/// follows it, is read as that record.
pub proof fn law_decode_encode(r: RecordView, rest: Seq<u8>)
    ensures
        record_at(record_text(r) + rest, 0) == Some(r),
{
    let text = record_text(r);
    assert(text.subrange(0, text.len() as int) =~= text);
    lemma_has_at_extend(text, rest, 0, text);
    lemma_record_at(text + rest, 0, r);
}

/// Reading a log gives back the records it was written from, and their texts
/// make up the log.
pub proof fn law_decode_log(rs: Seq<RecordView>)
    ensures
        records_of(log_text(rs)) == Some(rs),
        log_text(records_of(log_text(rs)).unwrap()) == log_text(rs),
{
    lemma_records_of(rs);
}

/// A key that no record of the log binds has no value: `get` finds nothing
/// for it and `remove` answers `KeyNotFound`.
pub proof fn law_never_set(rs: Seq<RecordView>, k: Seq<char>)
    requires
        forall|i: int| 0 <= i < rs.len() && (#[trigger] rs[i]) is SetKey ==> rs[i].key() != k,
    ensures
        !contents(rs).contains_key(k),
    decreases rs.len(),
{
    if rs.len() > 0 {
        let init = rs.drop_last();
        assert forall|i: int|
            0 <= i < init.len() && (#[trigger] init[i]) is SetKey implies init[i].key() != k by {
            assert(init[i] == rs[i]);
        }
        law_never_set(init, k);
        assert(rs[rs.len() - 1] is SetKey ==> rs[rs.len() - 1].key() != k);
    }
}

/// After `set(k, v1)` and then `set(k, v2)`, `get(k)` gives `v2`.
pub proof fn law_set_twice(
    s0: KvStore,
    s1: KvStore,
    s2: KvStore,
    k: Seq<char>,
    v1: Seq<char>,
    v2: Seq<char>,
)
    requires
        s1@ == s0@.insert(k, v1),
        s2@ == s1@.insert(k, v2),
    ensures
        s2@.contains_key(k),
        s2@[k] == v2,
{
}

/// After `set(k, v)` and then `remove(k)`, `get(k)` finds nothing.
pub proof fn law_set_remove(s0: KvStore, s1: KvStore, s2: KvStore, k: Seq<char>, v: Seq<char>)
    requires
        s1@ == s0@.insert(k, v),
        s2@ == s1@.remove(k),
    ensures
        s1@.contains_key(k),
        !s2@.contains_key(k),
{
}

/// After `set(k, v)`, `remove(k)` and then `set(k, v2)`, `get(k)` gives `v2`.
pub proof fn law_set_remove_set(
    s0: KvStore,
    s1: KvStore,
    s2: KvStore,
    s3: KvStore,
    k: Seq<char>,
    v: Seq<char>,
    v2: Seq<char>,
)
    requires
        s1@ == s0@.insert(k, v),
        s2@ == s1@.remove(k),
        s3@ == s2@.insert(k, v2),
    ensures
        s3@.contains_key(k),
        s3@[k] == v2,
{
}

/// An operation on one key leaves the values of the other keys as they were.
pub proof fn law_other_keys_stay(m: Map<Seq<char>, Seq<char>>, r: RecordView, k: Seq<char>)
    requires
        r.key() != k,
    ensures
        apply_record(m, r).contains_key(k) == m.contains_key(k),
        m.contains_key(k) ==> apply_record(m, r)[k] == m[k],
{
}

} // verus!

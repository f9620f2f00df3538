//! What a log means: the map from keys to values that replaying its records
//! gives, and the offsets at which the live values stand.
use crate::index::{distinct_keys, entries_map, has_key, lemma_entries_lookup, lemma_entries_push};
use crate::json::{has_at, lemma_has_at_extend};
use crate::log::{lemma_log_text_take, lemma_record_stands, log_text, offset_of};
use crate::record::{lemma_record_at, record_at, record_text, RecordView};
use vstd::prelude::*;

verus! {

/// The map after one more record: a `SetKey` binds its key, a `RemoveKey`
/// unbinds it, whether or not it was bound.
pub open spec fn apply_record(m: Map<Seq<char>, Seq<char>>, r: RecordView) -> Map<
    Seq<char>,
    Seq<char>,
> {
    match r {
        RecordView::SetKey { key, value } => m.insert(key, value),
        RecordView::RemoveKey { key } => m.remove(key),
    }
}

/// The map from keys to values that replaying `rs` from the first record to
/// the last gives.
pub open spec fn contents(rs: Seq<RecordView>) -> Map<Seq<char>, Seq<char>>
    decreases rs.len(),
{
    if rs.len() == 0 {
        Map::empty()
    } else {
        apply_record(contents(rs.drop_last()), rs.last())
    }
}

/// For each live key of `rs`, the offset in the log of the `SetKey` record
/// that gave the key its value.
pub open spec fn live_offsets(rs: Seq<RecordView>) -> Map<Seq<char>, u64>
    decreases rs.len(),
{
    if rs.len() == 0 {
        Map::empty()
    } else {
        let before = live_offsets(rs.drop_last());
        match rs.last() {
            RecordView::SetKey { key, .. } => before.insert(
                key,
                log_text(rs.drop_last()).len() as u64,
            ),
            RecordView::RemoveKey { key } => before.remove(key),
        }
    }
}

/// The value of the `SetKey` record for `key` that stands in `bytes` at
/// `pos`, if such a record stands there.
pub open spec fn value_at(bytes: Seq<u8>, pos: int, key: Seq<char>) -> Option<Seq<char>> {
    match record_at(bytes, pos) {
        Some(RecordView::SetKey { key: k, value }) => if k == key {
            Some(value)
        } else {
            None
        },
        _ => None,
    }
}

/// Where the text of a `SetKey` record stands, `value_at` finds its value.
pub proof fn lemma_value_at(bytes: Seq<u8>, pos: int, key: Seq<char>, value: Seq<char>)
    requires
        has_at(bytes, pos, record_text(RecordView::SetKey { key, value })),
    ensures
        value_at(bytes, pos, key) == Some(value),
{
    lemma_record_at(bytes, pos, RecordView::SetKey { key, value });
}

/// The live offsets and the contents of a log have the same keys, and at each
/// live offset stands the `SetKey` record of that key with its current value.
pub proof fn lemma_live_offsets(rs: Seq<RecordView>)
    requires
        log_text(rs).len() <= u64::MAX,
    ensures
        live_offsets(rs).dom() == contents(rs).dom(),
        forall|k: Seq<char>| #[trigger]
            live_offsets(rs).contains_key(k) ==> value_at(
                log_text(rs),
                live_offsets(rs)[k] as int,
                k,
            ) == Some(contents(rs)[k]),
    decreases rs.len(),
{
    if rs.len() > 0 {
        let init = rs.drop_last();
        let last = rs.last();
        let text = record_text(last);
        lemma_live_offsets(init);
        assert(live_offsets(rs).dom() =~= contents(rs).dom());
        assert forall|k: Seq<char>| #[trigger]
            live_offsets(rs).contains_key(k) implies value_at(
            log_text(rs),
            live_offsets(rs)[k] as int,
            k,
        ) == Some(contents(rs)[k]) by {
            if last is SetKey && last.key() == k {
                assert(rs.take(rs.len() - 1) =~= init);
                lemma_record_stands(rs, rs.len() - 1);
                lemma_value_at(log_text(rs), log_text(init).len() as int, k, contents(rs)[k]);
            } else {
                assert(live_offsets(init).contains_key(k));
                let pos = live_offsets(init)[k] as int;
                let old_record = RecordView::SetKey { key: k, value: contents(init)[k] };
                assert(has_at(log_text(init), pos, record_text(old_record)));
                lemma_has_at_extend(log_text(init), text, pos, record_text(old_record));
                lemma_value_at(log_text(rs), pos, k, contents(init)[k]);
            }
        }
    } else {
        assert(live_offsets(rs).dom() =~= contents(rs).dom());
    }
}

/// Every record binds a key, and no two bind the same key.
pub open spec fn binds_each_once(rs: Seq<RecordView>) -> bool {
    &&& forall|i: int| 0 <= i < rs.len() ==> (#[trigger] rs[i]) is SetKey
    &&& forall|i: int, j: int| 0 <= i < j < rs.len() ==> rs[i].key() != rs[j].key()
}

/// The key of each record of `rs` with the record's offset in the log.
pub open spec fn offsets_in_order(rs: Seq<RecordView>) -> Seq<(Seq<char>, u64)> {
    Seq::new(rs.len(), |i: int| (rs[i].key(), offset_of(rs, i) as u64))
}

/// In a log that binds each of its keys once, every record is live: the live
/// offsets are the records' own offsets.
pub proof fn lemma_binds_each_once(rs: Seq<RecordView>)
    requires
        binds_each_once(rs),
        log_text(rs).len() <= u64::MAX,
    ensures
        distinct_keys(offsets_in_order(rs)),
        live_offsets(rs) == entries_map(offsets_in_order(rs)),
    decreases rs.len(),
{
    let pairs = offsets_in_order(rs);
    if rs.len() == 0 {
        assert(live_offsets(rs) =~= entries_map(pairs));
    } else {
        let init = rs.drop_last();
        let last = rs.last();
        let n = init.len() as int;
        lemma_log_text_take(rs, n);
        assert(rs.take(n) =~= init);
        lemma_binds_each_once(init);
        let before = offsets_in_order(init);
        let place = log_text(init).len() as u64;
        assert forall|i: int| 0 <= i < n implies offset_of(rs, i) == offset_of(init, i) by {
            assert(rs.take(i) =~= init.take(i));
        }
        assert(pairs =~= before.push((last.key(), place)));
        assert(!has_key(before, last.key())) by {
            if has_key(before, last.key()) {
                let i = choose|i: int| 0 <= i < before.len() && (#[trigger] before[i]).0
                    == last.key();
                assert(rs[i].key() != rs[n].key());
            }
        }
        lemma_entries_push(before, last.key(), place);
    }
}

/// The records that compaction writes for the index `es` over the log
/// `bytes`: for each pair of the index, in its order, one `SetKey` record with
/// the value that stands at the pair's offset.
pub open spec fn compacted(bytes: Seq<u8>, es: Seq<(Seq<char>, u64)>) -> Seq<RecordView> {
    Seq::new(
        es.len(),
        |i: int|
            RecordView::SetKey {
                key: es[i].0,
                value: value_at(bytes, es[i].1 as int, es[i].0).unwrap(),
            },
    )
}

/// Every pair of the index points at a `SetKey` record of its key.
pub open spec fn points_at_values(bytes: Seq<u8>, es: Seq<(Seq<char>, u64)>) -> bool {
    forall|i: int|
        0 <= i < es.len() ==> value_at(bytes, (#[trigger] es[i]).1 as int, es[i].0) is Some
}

/// Where the index is that of the log `rs`, each of its pairs points at the
/// `SetKey` record that holds the key's current value, and every key of the
/// contents is in the index.
pub proof fn lemma_index_points_at_values(rs: Seq<RecordView>, es: Seq<(Seq<char>, u64)>)
    requires
        log_text(rs).len() <= u64::MAX,
        distinct_keys(es),
        entries_map(es) == live_offsets(rs),
    ensures
        points_at_values(log_text(rs), es),
        forall|i: int|
            0 <= i < es.len() ==> contents(rs).contains_key((#[trigger] es[i]).0) && value_at(
                log_text(rs),
                es[i].1 as int,
                es[i].0,
            ) == Some(contents(rs)[es[i].0]),
        forall|k: Seq<char>| contents(rs).contains_key(k) ==> has_key(es, k),
{
    lemma_live_offsets(rs);
    assert forall|i: int| 0 <= i < es.len() implies contents(rs).contains_key(
        (#[trigger] es[i]).0,
    ) && value_at(log_text(rs), es[i].1 as int, es[i].0) == Some(contents(rs)[es[i].0]) by {
        lemma_entries_lookup(es, i);
        assert(live_offsets(rs).contains_key(es[i].0));
    }
    assert forall|k: Seq<char>| contents(rs).contains_key(k) implies has_key(es, k) by {
        assert(live_offsets(rs).dom().contains(k));
        assert(entries_map(es).contains_key(k));
    }
}

/// The key of some record of `rs` is `k`.
pub open spec fn binds_key(rs: Seq<RecordView>, k: Seq<char>) -> bool {
    exists|i: int| 0 <= i < rs.len() && (#[trigger] rs[i]).key() == k
}

/// A log that binds each of its keys once, to the value that the map `m` has
/// for it, and binds every key of `m`, has the contents `m`.
pub proof fn lemma_contents_of_bindings(rs: Seq<RecordView>, m: Map<Seq<char>, Seq<char>>)
    requires
        binds_each_once(rs),
        forall|i: int|
            0 <= i < rs.len() ==> m.contains_key((#[trigger] rs[i]).key()) && m[rs[i].key()]
                == rs[i]->value,
        forall|k: Seq<char>| m.contains_key(k) ==> binds_key(rs, k),
    ensures
        contents(rs) == m,
    decreases rs.len(),
{
    if rs.len() == 0 {
        assert forall|k: Seq<char>| !m.contains_key(k) by {
            if m.contains_key(k) {
                assert(binds_key(rs, k));
            }
        }
        assert(contents(rs) =~= m);
    } else {
        let init = rs.drop_last();
        let last = rs.last();
        let n = init.len() as int;
        let rest = m.remove(last.key());
        assert forall|i: int| 0 <= i < init.len() implies rest.contains_key(
            (#[trigger] init[i]).key(),
        ) && rest[init[i].key()] == init[i]->value by {
            assert(init[i] == rs[i]);
            assert(rs[i].key() != rs[n].key());
        }
        assert forall|k: Seq<char>| rest.contains_key(k) implies binds_key(init, k) by {
            assert(binds_key(rs, k));
            let i = choose|i: int| 0 <= i < rs.len() && (#[trigger] rs[i]).key() == k;
            assert(init[i].key() == k);
        }
        assert(binds_each_once(init)) by {
            assert forall|i: int| 0 <= i < init.len() implies (#[trigger] init[i]) is SetKey by {
                assert(init[i] == rs[i]);
            }
            assert forall|i: int, j: int| 0 <= i < j < init.len() implies init[i].key()
                != init[j].key() by {
                assert(rs[i].key() != rs[j].key());
            }
        }
        lemma_contents_of_bindings(init, rest);
        assert(rs[n] is SetKey);
        assert(m.contains_key(rs[n].key()));
        assert(contents(rs) =~= m);
    }
}

/// Compaction keeps what the store holds: where the index is that of the log
/// `rs`, the compacted log binds each key of the index once and has the
/// contents of `rs`.
pub proof fn lemma_compaction_keeps_contents(rs: Seq<RecordView>, es: Seq<(Seq<char>, u64)>)
    requires
        log_text(rs).len() <= u64::MAX,
        distinct_keys(es),
        entries_map(es) == live_offsets(rs),
    ensures
        binds_each_once(compacted(log_text(rs), es)),
        contents(compacted(log_text(rs), es)) == contents(rs),
{
    let fresh = compacted(log_text(rs), es);
    let m = contents(rs);
    lemma_index_points_at_values(rs, es);
    assert forall|i: int, j: int| 0 <= i < j < fresh.len() implies fresh[i].key()
        != fresh[j].key() by {
        assert(es[i].0 != es[j].0);
    }
    assert forall|i: int| 0 <= i < fresh.len() implies m.contains_key((#[trigger] fresh[i]).key())
        && m[fresh[i].key()] == fresh[i]->value by {
        assert(m.contains_key(es[i].0));
    }
    assert forall|k: Seq<char>| m.contains_key(k) implies binds_key(fresh, k) by {
        assert(has_key(es, k));
        let i = choose|i: int| 0 <= i < es.len() && (#[trigger] es[i]).0 == k;
        assert(fresh[i].key() == k);
    }
    lemma_contents_of_bindings(fresh, m);
}

} // verus!

//! The text of a whole log: its records' texts one behind the other.
//!
//! Because no record's text is the beginning of another's, a text is the log
//! of at most one sequence of records, and a log that begins another holds
//! the first records of the other.
use crate::json::{has_at, lemma_has_at_concat, lemma_has_at_extend};
use crate::record::{
    decode_at, lemma_record_text_len, lemma_record_text_unique, record_at, record_text, Record,
    RecordView,
};
use vstd::prelude::*;

verus! {

/// The text of the log that holds the records `rs` in this order.
pub open spec fn log_text(rs: Seq<RecordView>) -> Seq<u8>
    decreases rs.len(),
{
    if rs.len() == 0 {
        Seq::empty()
    } else {
        log_text(rs.drop_last()) + record_text(rs.last())
    }
}

/// The offset in the log at which record number `i` of `rs` begins.
pub open spec fn offset_of(rs: Seq<RecordView>, i: int) -> int {
    log_text(rs.take(i)).len() as int
}

/// The records whose log `bytes` is, if it is the log of any.
pub open spec fn records_of(bytes: Seq<u8>) -> Option<Seq<RecordView>> {
    if exists|rs: Seq<RecordView>| log_text(rs) == bytes {
        Some(choose|rs: Seq<RecordView>| log_text(rs) == bytes)
    } else {
        None
    }
}

/// Appending a record to the log appends its text.
pub proof fn lemma_log_text_push(rs: Seq<RecordView>, r: RecordView)
    ensures
        log_text(rs.push(r)) == log_text(rs) + record_text(r),
{
    assert(rs.push(r).drop_last() =~= rs);
}

/// The log of the first `i + 1` records is the log of the first `i` with
/// the text of record number `i` behind it.
pub proof fn lemma_log_text_step(rs: Seq<RecordView>, i: int)
    requires
        0 <= i < rs.len(),
    ensures
        log_text(rs.take(i + 1)) == log_text(rs.take(i)) + record_text(rs[i]),
{
    assert(rs.take(i + 1).drop_last() =~= rs.take(i));
}

/// The log of the first `i` records begins the log of all of them, and every
/// record takes at least nineteen bytes.
pub proof fn lemma_log_text_take(rs: Seq<RecordView>, i: int)
    requires
        0 <= i <= rs.len(),
    ensures
        has_at(log_text(rs), 0, log_text(rs.take(i))),
        log_text(rs).len() >= log_text(rs.take(i)).len() + 19 * (rs.len() - i),
    decreases rs.len(),
{
    if i == rs.len() {
        assert(rs.take(i) =~= rs);
        assert(log_text(rs).subrange(0, log_text(rs).len() as int) =~= log_text(rs));
    } else {
        let init = rs.drop_last();
        lemma_log_text_take(init, i);
        assert(init.take(i) =~= rs.take(i));
        lemma_has_at_extend(log_text(init), record_text(rs.last()), 0, log_text(init.take(i)));
        lemma_record_text_len(rs.last());
    }
}

/// Each record's text stands in the log at the record's offset.
pub proof fn lemma_record_stands(rs: Seq<RecordView>, i: int)
    requires
        0 <= i < rs.len(),
    ensures
        has_at(log_text(rs), offset_of(rs, i), record_text(rs[i])),
{
    let upto = rs.take(i + 1);
    assert(upto.drop_last() =~= rs.take(i));
    assert(upto.last() == rs[i]);
    lemma_log_text_take(rs, i + 1);
    lemma_has_at_concat(log_text(rs), 0, log_text(rs.take(i)), record_text(rs[i]));
}

/// A log that begins another holds the first records of the other.
pub proof fn lemma_log_prefix(a: Seq<RecordView>, b: Seq<RecordView>)
    requires
        has_at(log_text(b), 0, log_text(a)),
    ensures
        a.len() <= b.len(),
        a == b.take(a.len() as int),
    decreases a.len(),
{
    if a.len() == 0 {
        assert(a =~= b.take(0));
    } else {
        let init = a.drop_last();
        let n = init.len() as int;
        lemma_has_at_concat(log_text(b), 0, log_text(init), record_text(a.last()));
        lemma_log_prefix(init, b);
        lemma_record_text_len(a.last());
        if n == b.len() {
            assert(b.take(n) =~= b);
        } else {
            lemma_record_stands(b, n);
            lemma_record_text_unique(a.last(), b[n], log_text(b), offset_of(b, n));
            assert(a =~= b.take(n + 1));
        }
    }
}

/// A text is the log of at most one sequence of records.
pub proof fn lemma_log_text_unique(a: Seq<RecordView>, b: Seq<RecordView>)
    requires
        log_text(a) == log_text(b),
    ensures
        a == b,
{
    lemma_log_text_take(a, a.len() as int);
    lemma_log_text_take(b, b.len() as int);
    assert(a.take(a.len() as int) =~= a);
    assert(b.take(b.len() as int) =~= b);
    lemma_log_prefix(a, b);
    lemma_log_prefix(b, a);
}

/// The records of a log's text are the records it was written from.
pub proof fn lemma_records_of(rs: Seq<RecordView>)
    ensures
        records_of(log_text(rs)) == Some(rs),
{
    let found = choose|x: Seq<RecordView>| log_text(x) == log_text(rs);
    lemma_log_text_unique(found, rs);
}

/// The records among `items`, in their order.
pub open spec fn records_in(items: Seq<(Record, u64)>) -> Seq<RecordView> {
    Seq::new(items.len(), |i: int| items[i].0@)
}

/// Reads the records of `bytes` from the first byte on, each with the offset
/// at which it begins, and tells where reading stopped: at the end, or at the
/// first place where no record's text stands.  The texts of the records read
/// make up the bytes before that place; the bytes are a log exactly when
/// reading stops at their end.
pub fn decode_stream(bytes: &Vec<u8>) -> (out: (Vec<(Record, u64)>, usize))
    ensures
        out.1 <= bytes@.len(),
        log_text(records_in(out.0@)) == bytes@.take(out.1 as int),
        forall|i: int|
            0 <= i < out.0@.len() ==> (#[trigger] out.0@[i]).1 == offset_of(records_in(out.0@), i),
        out.1 == bytes@.len() || record_at(bytes@, out.1 as int) is None,
        out.1 == bytes@.len() <==> records_of(bytes@) is Some,
        records_of(bytes@) is Some ==> records_of(bytes@) == Some(records_in(out.0@)),
{
    let mut items: Vec<(Record, u64)> = Vec::new();
    let mut pos: usize = 0;
    let size = bytes.len();
    assert(bytes@.take(0) =~= log_text(records_in(items@)));
    while pos < size
        invariant
            size == bytes@.len(),
            pos <= size,
            log_text(records_in(items@)) == bytes@.take(pos as int),
            forall|i: int|
                0 <= i < items@.len() ==> (#[trigger] items@[i]).1 == offset_of(
                    records_in(items@),
                    i,
                ),
        decreases size - pos,
    {
        let ghost done = records_in(items@);
        match decode_at(bytes, pos) {
            None => {
                proof {
                    lemma_stops_short(bytes@, done, pos as int);
                }
                return (items, pos);
            },
            Some((record, end)) => {
                proof {
                    lemma_has_at_concat(bytes@, 0, log_text(done), record_text(record@));
                    lemma_log_text_push(done, record@);
                    lemma_record_text_len(record@);
                    assert(bytes@.take(end as int) =~= bytes@.take(pos as int) + bytes@.subrange(
                        pos as int,
                        end as int,
                    ));
                }
                items.push((record, pos as u64));
                proof {
                    let now = records_in(items@);
                    assert(now =~= done.push(record@));
                    assert forall|i: int| 0 <= i < items@.len() implies (#[trigger] items@[i]).1
                        == offset_of(now, i) by {
                        if i < done.len() {
                            assert(now.take(i) =~= done.take(i));
                        } else {
                            assert(now.take(i) =~= done);
                        }
                    }
                }
                pos = end;
            },
        }
    }
    proof {
        assert(bytes@.take(size as int) =~= bytes@);
        lemma_records_of(records_in(items@));
    }
    (items, pos)
}

/// Where the records `done` make up the first `pos` bytes and no record's
/// text stands at `pos`, before the end, the bytes are no log.
pub proof fn lemma_stops_short(bytes: Seq<u8>, done: Seq<RecordView>, pos: int)
    requires
        0 <= pos < bytes.len(),
        log_text(done) == bytes.take(pos),
        record_at(bytes, pos) is None,
    ensures
        records_of(bytes) is None,
{
    if records_of(bytes) is Some {
        let rs = records_of(bytes).unwrap();
        assert(bytes.subrange(0, pos) =~= bytes.take(pos));
        lemma_log_prefix(done, rs);
        let n = done.len() as int;
        if n == rs.len() {
            assert(rs.take(n) =~= rs);
        } else {
            lemma_record_stands(rs, n);
        }
    }
}

} // verus!

//! The records of the log and their text.
//!
//! A record is one JSON object with the members `key` and `value`, written
//! without white space; a record that removes a key has `null` for its value.
//! Records follow each other in the log with nothing between them.  Each
//! record has exactly one text, and no text is the beginning of another, so a
//! log can be cut into its records in one way only.
use crate::json::{
    has_at, json_text, lemma_has_at_concat, lemma_has_at_index, lemma_json_text_shape,
    lemma_json_text_unique, read_string, stands_at, write_string,
};
use vstd::prelude::*;

verus! {

/// One command of the log.
#[derive(Debug, Clone, PartialEq, Eq)]
pub enum Record {
    /// Binds `key` to `value`.
    SetKey { key: String, value: String },
    /// Unbinds `key`.
    RemoveKey { key: String },
}

/// A record as a mathematical value.
pub enum RecordView {
    SetKey { key: Seq<char>, value: Seq<char> },
    RemoveKey { key: Seq<char> },
}

impl View for Record {
    type V = RecordView;

    open spec fn view(&self) -> RecordView {
        match *self {
            Record::SetKey { key, value } => RecordView::SetKey { key: key@, value: value@ },
            Record::RemoveKey { key } => RecordView::RemoveKey { key: key@ },
        }
    }
}

impl RecordView {
    /// The key the record speaks of.
    pub open spec fn key(self) -> Seq<char> {
        match self {
            RecordView::SetKey { key, .. } => key,
            RecordView::RemoveKey { key } => key,
        }
    }
}

/// The bytes `{"key":` that open a record.
pub open spec fn key_open() -> Seq<u8> {
    seq![0x7bu8, 0x22u8, 0x6bu8, 0x65u8, 0x79u8, 0x22u8, 0x3au8]
}

/// The bytes `,"value":` between a record's key and its value.
pub open spec fn value_open() -> Seq<u8> {
    seq![0x2cu8, 0x22u8, 0x76u8, 0x61u8, 0x6cu8, 0x75u8, 0x65u8, 0x22u8, 0x3au8]
}

/// The bytes `null`, the value of a record that removes its key.
pub open spec fn null_text() -> Seq<u8> {
    seq![0x6eu8, 0x75u8, 0x6cu8, 0x6cu8]
}

/// The byte `}` that closes a record.
pub open spec fn record_close() -> Seq<u8> {
    seq![0x7du8]
}

/// The text of a record's value: a string literal, or `null` for a removal.
pub open spec fn value_text(r: RecordView) -> Seq<u8> {
    match r {
        RecordView::SetKey { value, .. } => json_text(value),
        RecordView::RemoveKey { .. } => null_text(),
    }
}

/// The text of a record in the log.
pub open spec fn record_text(r: RecordView) -> Seq<u8> {
    key_open() + json_text(r.key()) + value_open() + value_text(r) + record_close()
}

/// The record whose text stands in `bytes` at `pos`, if there is one.
pub open spec fn record_at(bytes: Seq<u8>, pos: int) -> Option<RecordView> {
    if exists|r: RecordView| has_at(bytes, pos, record_text(r)) {
        Some(choose|r: RecordView| has_at(bytes, pos, record_text(r)))
    } else {
        None
    }
}

/// A record's text stands at `pos` exactly when its five parts stand there one
/// behind the other.
pub proof fn lemma_record_parts(bytes: Seq<u8>, pos: int, r: RecordView)
    ensures
        has_at(bytes, pos, record_text(r)) <==> {
            let key_start = pos + 7;
            let key_end = key_start + json_text(r.key()).len();
            let value_start = key_end + 9;
            let value_end = value_start + value_text(r).len();
            &&& has_at(bytes, pos, key_open())
            &&& has_at(bytes, key_start, json_text(r.key()))
            &&& has_at(bytes, key_end, value_open())
            &&& has_at(bytes, value_start, value_text(r))
            &&& has_at(bytes, value_end, record_close())
        },
        record_text(r).len() == 17 + json_text(r.key()).len() + value_text(r).len(),
{
    let a = key_open();
    let b = json_text(r.key());
    let c = value_open();
    let d = value_text(r);
    let e = record_close();
    lemma_has_at_concat(bytes, pos, a + b + c + d, e);
    lemma_has_at_concat(bytes, pos, a + b + c, d);
    lemma_has_at_concat(bytes, pos, a + b, c);
    lemma_has_at_concat(bytes, pos, a, b);
}

/// A record's text is never empty.
pub proof fn lemma_record_text_len(r: RecordView)
    ensures
        record_text(r).len() >= 19,
{
    lemma_json_text_shape(r.key());
    match r {
        RecordView::SetKey { value, .. } => {
            lemma_json_text_shape(value);
        },
        RecordView::RemoveKey { .. } => {},
    }
}

/// Two records whose texts stand at the same place are the same record: no
/// record's text is the beginning of another's.
pub proof fn lemma_record_text_unique(r1: RecordView, r2: RecordView, bytes: Seq<u8>, pos: int)
    requires
        has_at(bytes, pos, record_text(r1)),
        has_at(bytes, pos, record_text(r2)),
    ensures
        r1 == r2,
{
    lemma_record_parts(bytes, pos, r1);
    lemma_record_parts(bytes, pos, r2);
    lemma_json_text_unique(r1.key(), r2.key(), bytes, pos + 7);
    let value_start = pos + 16 + json_text(r1.key()).len();
    lemma_has_at_index(bytes, value_start, value_text(r1), 0);
    lemma_has_at_index(bytes, value_start, value_text(r2), 0);
    match (r1, r2) {
        (RecordView::SetKey { value: v1, .. }, RecordView::SetKey { value: v2, .. }) => {
            lemma_json_text_unique(v1, v2, bytes, value_start);
        },
        (RecordView::SetKey { value: v1, .. }, RecordView::RemoveKey { .. }) => {
            lemma_json_text_shape(v1);
        },
        (RecordView::RemoveKey { .. }, RecordView::SetKey { value: v2, .. }) => {
            lemma_json_text_shape(v2);
        },
        (RecordView::RemoveKey { .. }, RecordView::RemoveKey { .. }) => {},
    }
}

/// Where a record's text stands, `record_at` finds that record.
pub proof fn lemma_record_at(bytes: Seq<u8>, pos: int, r: RecordView)
    requires
        has_at(bytes, pos, record_text(r)),
    ensures
        record_at(bytes, pos) == Some(r),
{
    let found = choose|x: RecordView| has_at(bytes, pos, record_text(x));
    lemma_record_text_unique(found, r, bytes, pos);
}

/// The bytes `{"key":`.
fn key_open_bytes() -> (out: Vec<u8>)
    ensures
        out@ == key_open(),
{
    let out: Vec<u8> = vec![0x7bu8, 0x22u8, 0x6bu8, 0x65u8, 0x79u8, 0x22u8, 0x3au8];
    assert(out@ =~= key_open());
    out
}

/// The bytes `,"value":`.
fn value_open_bytes() -> (out: Vec<u8>)
    ensures
        out@ == value_open(),
{
    let out: Vec<u8> = vec![0x2cu8, 0x22u8, 0x76u8, 0x61u8, 0x6cu8, 0x75u8, 0x65u8, 0x22u8, 0x3au8];
    assert(out@ =~= value_open());
    out
}

/// The bytes `null`.
fn null_bytes() -> (out: Vec<u8>)
    ensures
        out@ == null_text(),
{
    let out: Vec<u8> = vec![0x6eu8, 0x75u8, 0x6cu8, 0x6cu8];
    assert(out@ =~= null_text());
    out
}

/// The byte `}`.
fn close_bytes() -> (out: Vec<u8>)
    ensures
        out@ == record_close(),
{
    let out: Vec<u8> = vec![0x7du8];
    assert(out@ =~= record_close());
    out
}

/// Writes the text of the record with this key and value; no value makes a
/// removal.
pub fn encode_entry(key: &str, value: Option<&str>) -> (out: Vec<u8>)
    ensures
        out@ == record_text(
            match value {
                Some(v) => RecordView::SetKey { key: key@, value: v@ },
                None => RecordView::RemoveKey { key: key@ },
            },
        ),
{
    let mut out = key_open_bytes();
    let key_text = write_string(key);
    out.extend_from_slice(key_text.as_slice());
    let sep = value_open_bytes();
    out.extend_from_slice(sep.as_slice());
    match value {
        Some(v) => {
            let text = write_string(v);
            out.extend_from_slice(text.as_slice());
        },
        None => {
            let text = null_bytes();
            out.extend_from_slice(text.as_slice());
        },
    }
    let close = close_bytes();
    out.extend_from_slice(close.as_slice());
    out
}

/// Writes the text of `record`.
pub fn encode(record: &Record) -> (out: Vec<u8>)
    ensures
        out@ == record_text(record@),
{
    match record {
        Record::SetKey { key, value } => encode_entry(key.as_str(), Some(value.as_str())),
        Record::RemoveKey { key } => encode_entry(key.as_str(), None),
    }
}

/// Reads the record whose text stands in `bytes` at `pos`, and tells where
/// its text ends.  There is a result exactly when some record's text stands
/// there, and that record is the result.
pub fn decode_at(bytes: &Vec<u8>, pos: usize) -> (out: Option<(Record, usize)>)
    ensures
        out is Some <==> record_at(bytes@, pos as int) is Some,
        out matches Some((r, end)) ==> record_at(bytes@, pos as int) == Some(r@) && end == pos
            + record_text(r@).len() && end <= bytes@.len(),
{
    let opening = key_open_bytes();
    if !stands_at(bytes, pos, &opening) {
        proof {
            assert forall|r: RecordView| !has_at(bytes@, pos as int, record_text(r)) by {
                lemma_record_parts(bytes@, pos as int, r);
            }
        }
        return None;
    }
    let size = bytes.len();
    assert(pos + key_open().len() <= size);
    let key_start: usize = pos + 7;
    let (key, key_end) = match read_string(bytes, key_start) {
        Some(found) => found,
        None => {
            proof {
                assert forall|r: RecordView| !has_at(bytes@, pos as int, record_text(r)) by {
                    lemma_record_parts(bytes@, pos as int, r);
                }
            }
            return None;
        },
    };
    proof {
        assert forall|r: RecordView| has_at(bytes@, pos as int, record_text(r)) implies r.key()
            == key@ by {
            lemma_record_parts(bytes@, pos as int, r);
            lemma_json_text_unique(r.key(), key@, bytes@, key_start as int);
        }
    }
    let middle = value_open_bytes();
    if !stands_at(bytes, key_end, &middle) {
        proof {
            assert forall|r: RecordView| !has_at(bytes@, pos as int, record_text(r)) by {
                lemma_record_parts(bytes@, pos as int, r);
            }
        }
        return None;
    }
    assert(key_end + value_open().len() <= size);
    let value_start: usize = key_end + 9;
    let closing = close_bytes();
    let null = null_bytes();
    if stands_at(bytes, value_start, &null) {
        let value_end: usize = value_start + 4;
        if stands_at(bytes, value_end, &closing) {
            let record = Record::RemoveKey { key };
            proof {
                lemma_record_parts(bytes@, pos as int, record@);
                lemma_record_at(bytes@, pos as int, record@);
            }
            return Some((record, value_end + 1));
        }
        proof {
            assert forall|r: RecordView| !has_at(bytes@, pos as int, record_text(r)) by {
                lemma_record_parts(bytes@, pos as int, r);
                if has_at(bytes@, pos as int, record_text(r)) {
                    lemma_has_at_index(bytes@, value_start as int, value_text(r), 0);
                    lemma_has_at_index(bytes@, value_start as int, null_text(), 0);
                    lemma_json_text_shape(r.key());
                    if r is SetKey {
                        lemma_json_text_shape(r->SetKey_value);
                    }
                }
            }
        }
        return None;
    }
    match read_string(bytes, value_start) {
        Some((value, value_end)) => {
            if stands_at(bytes, value_end, &closing) {
                let record = Record::SetKey { key, value };
                proof {
                    lemma_record_parts(bytes@, pos as int, record@);
                    lemma_record_at(bytes@, pos as int, record@);
                }
                return Some((record, value_end + 1));
            }
            proof {
                assert forall|r: RecordView| !has_at(bytes@, pos as int, record_text(r)) by {
                    lemma_record_parts(bytes@, pos as int, r);
                    if has_at(bytes@, pos as int, record_text(r)) {
                        if r is SetKey {
                            let v = r->SetKey_value;
                            lemma_json_text_unique(v, value@, bytes@, value_start as int);
                        }
                    }
                }
            }
            None
        },
        None => {
            proof {
                assert forall|r: RecordView| !has_at(bytes@, pos as int, record_text(r)) by {
                    lemma_record_parts(bytes@, pos as int, r);
                }
            }
            None
        },
    }
}

} // verus!

use kvs::kvls::LogWrite;
use kvs::log::decode_stream;
use kvs::record::{encode, Record};
use kvs::{KvError, KvStore};
use std::collections::HashMap;

fn s(text: &str) -> String {
    text.to_owned()
}

fn fresh() -> KvStore {
    KvStore::open(Vec::new()).unwrap()
}

fn reopen(store: &KvStore) -> KvStore {
    KvStore::open(store.log_bytes().clone()).unwrap()
}

#[test]
fn basic_set_get() {
    let mut kv = fresh();
    kv.set(s("one"), s("1")).unwrap();
    assert_eq!(kv.get(s("one")), Ok(Some(s("1"))));
    assert_eq!(kv.get(s("two")), Ok(None));
}

#[test]
fn overwrite() {
    let mut kv = fresh();
    kv.set(s("k"), s("a")).unwrap();
    kv.set(s("k"), s("b")).unwrap();
    assert_eq!(kv.get(s("k")), Ok(Some(s("b"))));
    assert_eq!(kv.num_entries(), 2);
    let (items, end) = decode_stream(kv.log_bytes());
    assert_eq!(items.len(), 2);
    assert_eq!(end, kv.log_bytes().len());
    assert_eq!(kv.log_bytes(), &br#"{"key":"k","value":"a"}{"key":"k","value":"b"}"#.to_vec());
}

#[test]
fn remove_then_reopen() {
    let mut kv = fresh();
    kv.set(s("k"), s("v")).unwrap();
    kv.remove(s("k")).unwrap();
    let mut kv = reopen(&kv);
    assert_eq!(kv.get(s("k")), Ok(None));
    assert_eq!(kv.remove(s("k")), Err(KvError::KeyNotFound));
}

#[test]
fn replay_after_drop() {
    let image = {
        let mut kv = fresh();
        kv.set(s("a"), s("1")).unwrap();
        kv.set(s("b"), s("2")).unwrap();
        kv.set(s("a"), s("3")).unwrap();
        kv.log_bytes().clone()
    };
    let mut kv = KvStore::open(image).unwrap();
    assert_eq!(kv.get(s("a")), Ok(Some(s("3"))));
    assert_eq!(kv.get(s("b")), Ok(Some(s("2"))));
    assert_eq!(kv.num_entries(), 3);
    assert_eq!(kv.len(), 2);
}

#[test]
fn compaction_shrinks_log() {
    let mut kv = fresh();
    let mut compactions = 0;
    let mut longest = 0;
    for i in 0..10_000 {
        let before = kv.log_bytes().len();
        kv.set(s("k"), i.to_string()).unwrap();
        longest = longest.max(kv.log_bytes().len());
        if kv.log_bytes().len() < before {
            compactions += 1;
            let (items, end) = decode_stream(kv.log_bytes());
            assert_eq!(end, kv.log_bytes().len());
            assert_eq!(items, vec![(Record::SetKey { key: s("k"), value: i.to_string() }, 0)]);
            assert_eq!(kv.num_entries(), 1);
        }
    }
    assert_eq!(compactions, 9);
    assert!(longest > 1023 * 21);
    assert_eq!(kv.get(s("k")), Ok(Some(s("9999"))));
    assert_eq!(kv.num_entries(), 793);
    assert_eq!(kv.max_entries(), 1024);
}

#[test]
fn first_compaction_comes_with_the_record_that_reaches_the_threshold() {
    let mut kv = fresh();
    for i in 0..1023 {
        kv.set(s("k"), i.to_string()).unwrap();
    }
    assert_eq!(kv.num_entries(), 1023);
    kv.set(s("k"), s("last")).unwrap();
    assert_eq!(kv.num_entries(), 1);
    assert_eq!(kv.log_bytes(), &br#"{"key":"k","value":"last"}"#.to_vec());
}

#[test]
fn threshold_grows_to_twice_the_live_keys() {
    let mut kv = fresh();
    for i in 0..1024 {
        kv.set(format!("key{}", i), s("v")).unwrap();
    }
    assert_eq!(kv.num_entries(), 1024);
    assert_eq!(kv.len(), 1024);
    assert_eq!(kv.max_entries(), 2048);
    for i in 0..1023 {
        kv.set(format!("key{}", i), s("w")).unwrap();
    }
    assert_eq!(kv.num_entries(), 2047);
    kv.set(s("key1023"), s("w")).unwrap();
    assert_eq!(kv.num_entries(), 1024);
    assert_eq!(kv.max_entries(), 2048);
    for i in 0..1024 {
        assert_eq!(kv.get(format!("key{}", i)), Ok(Some(s("w"))));
    }
}

#[test]
fn compaction_with_mixed_keys() {
    let mut kv = fresh();
    for round in 0..2 {
        for i in 0..1000 {
            kv.set(format!("key{}", i), format!("value{}-{}", i, round)).unwrap();
        }
    }
    for i in (0..1000).step_by(2) {
        kv.remove(format!("key{}", i)).unwrap();
    }
    assert!(kv.num_entries() < 2500);
    assert_eq!(kv.len(), 500);
    let mut kv = reopen(&kv);
    assert_eq!(kv.len(), 500);
    for i in 0..1000 {
        if i % 2 == 0 {
            assert_eq!(kv.get(format!("key{}", i)), Ok(None));
            assert_eq!(kv.remove(format!("key{}", i)), Err(KvError::KeyNotFound));
        } else {
            assert_eq!(kv.get(format!("key{}", i)), Ok(Some(format!("value{}-1", i))));
        }
    }
}

#[test]
fn get_and_remove_of_a_key_never_set() {
    let mut kv = fresh();
    assert_eq!(kv.get(s("nobody")), Ok(None));
    assert_eq!(kv.remove(s("nobody")), Err(KvError::KeyNotFound));
    assert!(kv.log_bytes().is_empty());
    kv.set(s("somebody"), s("x")).unwrap();
    let before = kv.log_bytes().clone();
    assert_eq!(kv.remove(s("nobody")), Err(KvError::KeyNotFound));
    assert_eq!(kv.log_bytes(), &before);
    assert_eq!(kv.num_entries(), 1);
}

#[test]
fn set_then_remove_then_get() {
    let mut kv = fresh();
    kv.set(s("k"), s("v")).unwrap();
    assert_eq!(kv.remove(s("k")), Ok(()));
    assert_eq!(kv.get(s("k")), Ok(None));
    assert_eq!(kv.log_bytes(), &br#"{"key":"k","value":"v"}{"key":"k","value":null}"#.to_vec());
}

#[test]
fn set_remove_set_get() {
    let mut kv = fresh();
    kv.set(s("k"), s("v")).unwrap();
    kv.remove(s("k")).unwrap();
    kv.set(s("k"), s("v2")).unwrap();
    assert_eq!(kv.get(s("k")), Ok(Some(s("v2"))));
}

#[test]
fn empty_key_and_empty_value_are_kept() {
    let mut kv = fresh();
    kv.set(s(""), s("")).unwrap();
    kv.set(s("e"), s("")).unwrap();
    assert_eq!(kv.get(s("")), Ok(Some(s(""))));
    assert_eq!(kv.get(s("e")), Ok(Some(s(""))));
    let mut kv = reopen(&kv);
    assert_eq!(kv.get(s("")), Ok(Some(s(""))));
    kv.remove(s("")).unwrap();
    assert_eq!(kv.get(s("")), Ok(None));
    assert_eq!(kv.get(s("e")), Ok(Some(s(""))));
}

#[test]
fn large_value_is_kept() {
    let value = "x\u{1}\"".repeat(400_000);
    assert!(value.len() >= 1 << 20);
    let mut kv = fresh();
    kv.set(s("big"), value.clone()).unwrap();
    assert_eq!(kv.get(s("big")), Ok(Some(value.clone())));
    let mut kv = reopen(&kv);
    assert_eq!(kv.get(s("big")), Ok(Some(value)));
}

#[test]
fn store_agrees_with_a_plain_map() {
    let mut kv = fresh();
    let mut map: HashMap<String, String> = HashMap::new();
    let mut seed: u32 = 12345;
    for step in 0..6000 {
        seed = seed.wrapping_mul(1103515245).wrapping_add(12345);
        let key = format!("k{}", (seed >> 16) % 40);
        if (seed >> 8) % 3 == 0 {
            let expected = if map.remove(&key).is_some() { Ok(()) } else { Err(KvError::KeyNotFound) };
            assert_eq!(kv.remove(key.clone()), expected);
        } else {
            let value = format!("v{}\n\"{}", step, seed);
            map.insert(key.clone(), value.clone());
            assert_eq!(kv.set(key.clone(), value), Ok(()));
        }
        assert_eq!(kv.get(key.clone()), Ok(map.get(&key).cloned()));
        assert_eq!(kv.len(), map.len());
    }
    let mut kv = reopen(&kv);
    for i in 0..40 {
        let key = format!("k{}", i);
        assert_eq!(kv.get(key.clone()), Ok(map.get(&key).cloned()));
    }
}

#[test]
fn open_reads_a_log_written_by_hand() {
    let image = br#"{"key":"a","value":"1"}{"key":"b","value":"2"}{"key":"a","value":null}{"key":"c","value":"x\ny"}"#;
    let mut kv = KvStore::open(image.to_vec()).unwrap();
    assert_eq!(kv.get(s("a")), Ok(None));
    assert_eq!(kv.get(s("b")), Ok(Some(s("2"))));
    assert_eq!(kv.get(s("c")), Ok(Some(s("x\ny"))));
    assert_eq!(kv.num_entries(), 4);
    assert_eq!(kv.max_entries(), 1024);
    assert_eq!(kv.len(), 2);
}

#[test]
fn open_takes_a_removal_of_a_key_that_is_not_there() {
    let mut kv = KvStore::open(br#"{"key":"a","value":null}"#.to_vec()).unwrap();
    assert_eq!(kv.get(s("a")), Ok(None));
    assert_eq!(kv.num_entries(), 1);
}

#[test]
fn open_refuses_a_log_that_does_not_decode() {
    assert_eq!(KvStore::open(b"garbage".to_vec()).err(), Some(KvError::Corruption));
    assert_eq!(KvStore::open(b"\n".to_vec()).err(), Some(KvError::Corruption));
    let mut image = encode(&Record::SetKey { key: s("a"), value: s("1") });
    image.extend_from_slice(b"{\"key\":\"b\",\"va");
    assert_eq!(KvStore::open(image).err(), Some(KvError::Corruption));
    let mut image = encode(&Record::SetKey { key: s("a"), value: s("1") });
    image.push(b'\n');
    assert_eq!(KvStore::open(image).err(), Some(KvError::Corruption));
}

#[test]
fn open_does_not_compact() {
    let mut image = Vec::new();
    for i in 0..3000 {
        image.extend_from_slice(&encode(&Record::SetKey { key: s("k"), value: i.to_string() }));
    }
    let mut kv = KvStore::open(image.clone()).unwrap();
    assert_eq!(kv.num_entries(), 3000);
    assert_eq!(kv.log_bytes(), &image);
    assert_eq!(kv.take_unsaved(), LogWrite::Nothing);
    assert_eq!(kv.get(s("k")), Ok(Some(s("2999"))));
    kv.set(s("k"), s("z")).unwrap();
    assert_eq!(kv.num_entries(), 1);
    assert_eq!(kv.get(s("k")), Ok(Some(s("z"))));
}

fn carry_out(disk: &mut Vec<u8>, write: LogWrite) {
    match write {
        LogWrite::Nothing => {}
        LogWrite::Append(more) => disk.extend_from_slice(&more),
        LogWrite::Replace(all) => *disk = all,
    }
}

#[test]
fn unsaved_bytes_are_the_records_written_since() {
    let mut kv = fresh();
    assert_eq!(kv.take_unsaved(), LogWrite::Nothing);
    kv.set(s("a"), s("1")).unwrap();
    assert_eq!(kv.take_unsaved(), LogWrite::Append(br#"{"key":"a","value":"1"}"#.to_vec()));
    assert_eq!(kv.take_unsaved(), LogWrite::Nothing);
    kv.set(s("b"), s("2")).unwrap();
    kv.remove(s("a")).unwrap();
    assert_eq!(
        kv.take_unsaved(),
        LogWrite::Append(br#"{"key":"b","value":"2"}{"key":"a","value":null}"#.to_vec())
    );
    assert_eq!(kv.remove(s("a")), Err(KvError::KeyNotFound));
    assert_eq!(kv.take_unsaved(), LogWrite::Nothing);
    assert_eq!(kv.get(s("b")), Ok(Some(s("2"))));
    assert_eq!(kv.take_unsaved(), LogWrite::Nothing);
}

#[test]
fn a_compacted_log_replaces_the_file() {
    let mut kv = fresh();
    for i in 0..1023 {
        kv.set(s("k"), i.to_string()).unwrap();
    }
    assert!(matches!(kv.take_unsaved(), LogWrite::Append(_)));
    kv.set(s("k"), s("end")).unwrap();
    kv.set(s("j"), s("more")).unwrap();
    assert_eq!(
        kv.take_unsaved(),
        LogWrite::Replace(br#"{"key":"k","value":"end"}{"key":"j","value":"more"}"#.to_vec())
    );
    assert_eq!(kv.take_unsaved(), LogWrite::Nothing);
}

#[test]
fn the_file_follows_the_log() {
    let mut disk: Vec<u8> = Vec::new();
    let mut kv = KvStore::open(disk.clone()).unwrap();
    for i in 0..2500 {
        kv.set(format!("k{}", i % 7), i.to_string()).unwrap();
        if i % 5 == 0 {
            let _ = kv.remove(format!("k{}", i % 3));
        }
        if i % 11 == 0 {
            carry_out(&mut disk, kv.take_unsaved());
            assert_eq!(&disk, kv.log_bytes());
        }
    }
    carry_out(&mut disk, kv.take_unsaved());
    assert_eq!(&disk, kv.log_bytes());
    let mut again = KvStore::open(disk).unwrap();
    for i in 0..7 {
        assert_eq!(again.get(format!("k{}", i)), kv.get(format!("k{}", i)));
    }
}

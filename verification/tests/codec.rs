use kvs::json::{read_string, stands_at, string_text, write_string};
use kvs::log::decode_stream;
use kvs::record::{decode_at, encode, encode_entry, Record};

fn set(key: &str, value: &str) -> Record {
    Record::SetKey { key: key.to_owned(), value: value.to_owned() }
}

fn rm(key: &str) -> Record {
    Record::RemoveKey { key: key.to_owned() }
}

#[test]
fn set_record_has_the_expected_text() {
    assert_eq!(encode(&set("k", "v")), br#"{"key":"k","value":"v"}"#.to_vec());
}

#[test]
fn remove_record_has_null_for_its_value() {
    assert_eq!(encode(&rm("k")), br#"{"key":"k","value":null}"#.to_vec());
}

#[test]
fn encode_entry_agrees_with_encode() {
    assert_eq!(encode_entry("one", Some("1")), encode(&set("one", "1")));
    assert_eq!(encode_entry("one", None), encode(&rm("one")));
}

#[test]
fn plain_string_is_written_between_quotes() {
    assert_eq!(write_string("abc"), b"\"abc\"".to_vec());
    assert_eq!(write_string(""), b"\"\"".to_vec());
}

#[test]
fn quote_and_backslash_are_escaped() {
    assert_eq!(write_string("a\"b"), b"\"a\\\"b\"".to_vec());
    assert_eq!(write_string("a\\b"), b"\"a\\\\b\"".to_vec());
}

#[test]
fn short_escapes_are_used_for_the_control_bytes_that_have_one() {
    assert_eq!(write_string("\u{8}"), b"\"\\b\"".to_vec());
    assert_eq!(write_string("\t"), b"\"\\t\"".to_vec());
    assert_eq!(write_string("\n"), b"\"\\n\"".to_vec());
    assert_eq!(write_string("\u{c}"), b"\"\\f\"".to_vec());
    assert_eq!(write_string("\r"), b"\"\\r\"".to_vec());
}

#[test]
fn other_control_bytes_are_written_in_lower_case_hex() {
    assert_eq!(write_string("\u{0}"), b"\"\\u0000\"".to_vec());
    assert_eq!(write_string("\u{1}"), b"\"\\u0001\"".to_vec());
    assert_eq!(write_string("\u{b}"), b"\"\\u000b\"".to_vec());
    assert_eq!(write_string("\u{1a}"), b"\"\\u001a\"".to_vec());
    assert_eq!(write_string("\u{1f}"), b"\"\\u001f\"".to_vec());
}

#[test]
fn every_control_byte_matches_the_stated_escape() {
    for b in 0u8..0x20 {
        let s = String::from_utf8(vec![b]).unwrap();
        let expected: Vec<u8> = match b {
            0x08 => b"\"\\b\"".to_vec(),
            0x09 => b"\"\\t\"".to_vec(),
            0x0a => b"\"\\n\"".to_vec(),
            0x0c => b"\"\\f\"".to_vec(),
            0x0d => b"\"\\r\"".to_vec(),
            _ => format!("\"\\u00{:02x}\"", b).into_bytes(),
        };
        assert_eq!(write_string(&s), expected);
    }
}

#[test]
fn every_other_ascii_byte_stands_for_itself() {
    for b in 0x20u8..0x80 {
        if b == b'"' || b == b'\\' {
            continue;
        }
        let s = String::from_utf8(vec![b]).unwrap();
        assert_eq!(write_string(&s), vec![b'"', b, b'"']);
    }
}

#[test]
fn text_beyond_ascii_is_written_as_its_utf8_bytes() {
    let s = "é€😀";
    let mut expected = vec![b'"'];
    expected.extend_from_slice(s.as_bytes());
    expected.push(b'"');
    assert_eq!(write_string(s), expected);
    assert_eq!(write_string("/"), b"\"/\"".to_vec());
    assert_eq!(write_string("\u{7f}"), vec![b'"', 0x7f, b'"']);
}

#[test]
fn the_text_worked_out_here_is_the_text_that_is_written() {
    let mut all = String::new();
    for c in 0u32..0x300 {
        let c = char::from_u32(c).unwrap();
        assert_eq!(string_text(&c.to_string()), write_string(&c.to_string()));
        all.push(c);
    }
    all.push_str("😀\u{ffff}\u{10ffff}\u{2028}\u{2029}");
    assert_eq!(string_text(&all), write_string(&all));
    assert_eq!(string_text(""), b"\"\"".to_vec());
    assert_eq!(string_text("a\u{1}\"\\"), b"\"a\\u0001\\\"\\\\\"".to_vec());
}

#[test]
fn read_string_gives_back_what_was_written() {
    for s in ["", "abc", "a\"b\\c", "\n\t\r\u{8}\u{c}", "\u{0}\u{1}\u{1f}", "é€😀", "{\"key\":\"x\"}"] {
        let mut bytes = b"xx".to_vec();
        let text = write_string(s);
        bytes.extend_from_slice(&text);
        bytes.extend_from_slice(b"tail\"");
        assert_eq!(read_string(&bytes, 2), Some((s.to_owned(), 2 + text.len())));
    }
}

#[test]
fn read_string_refuses_other_spellings() {
    assert_eq!(read_string(&b"\"\\u0041\"".to_vec(), 0), None);
    assert_eq!(read_string(&b"\"\\u000A\"".to_vec(), 0), None);
    assert_eq!(read_string(&b"\"\\u000a\"".to_vec(), 0), None);
    assert_eq!(read_string(&b"\"\\/\"".to_vec(), 0), None);
    assert_eq!(read_string(&b" \"a\"".to_vec(), 0), None);
    assert_eq!(read_string(&b"\"\\u00e9\"".to_vec(), 0), None);
}

#[test]
fn read_string_refuses_what_is_no_string() {
    assert_eq!(read_string(&b"\"abc".to_vec(), 0), None);
    assert_eq!(read_string(&b"abc\"".to_vec(), 0), None);
    assert_eq!(read_string(&b"null".to_vec(), 0), None);
    assert_eq!(read_string(&b"12".to_vec(), 0), None);
    assert_eq!(read_string(&b"\"a\nb\"".to_vec(), 0), None);
    assert_eq!(read_string(&vec![b'"', 0xff, b'"'], 0), None);
    assert_eq!(read_string(&b"\"a\"".to_vec(), 3), None);
    assert_eq!(read_string(&b"\"a\"".to_vec(), 4), None);
    assert_eq!(read_string(&Vec::new(), 0), None);
}

#[test]
fn stands_at_finds_a_pattern_only_where_it_is() {
    let bytes = b"hello world".to_vec();
    assert!(stands_at(&bytes, 0, &b"hello".to_vec()));
    assert!(stands_at(&bytes, 6, &b"world".to_vec()));
    assert!(stands_at(&bytes, 11, &Vec::new()));
    assert!(!stands_at(&bytes, 1, &b"hello".to_vec()));
    assert!(!stands_at(&bytes, 7, &b"world".to_vec()));
    assert!(!stands_at(&bytes, 12, &Vec::new()));
    assert!(!stands_at(&bytes, usize::MAX, &b"h".to_vec()));
}

#[test]
fn decode_gives_back_the_record() {
    for record in [
        set("k", "v"),
        rm("k"),
        set("", ""),
        rm(""),
        set("a\"b", "c\\d\n"),
        set("é", "\u{1}\u{1f}😀"),
        set("null", "null"),
        set("k", "{\"key\":\"k\",\"value\":null}"),
    ] {
        let text = encode(&record);
        assert_eq!(decode_at(&text, 0), Some((record.clone(), text.len())));
        let mut padded = b"##".to_vec();
        padded.extend_from_slice(&text);
        padded.extend_from_slice(b"{\"key\":");
        assert_eq!(decode_at(&padded, 2), Some((record, 2 + text.len())));
    }
}

#[test]
fn empty_key_and_value_round_trip() {
    let text = encode(&set("", ""));
    assert_eq!(text, br#"{"key":"","value":""}"#.to_vec());
    assert_eq!(decode_at(&text, 0), Some((set("", ""), text.len())));
}

#[test]
fn large_value_round_trips() {
    let value: String = "0123456789abcdef\n\"\\".repeat(60_000);
    assert!(value.len() >= 1 << 20);
    let record = set("big", &value);
    let text = encode(&record);
    assert_eq!(decode_at(&text, 0), Some((record, text.len())));
}

#[test]
fn decode_refuses_other_spellings_of_a_record() {
    let cases: [&[u8]; 12] = [
        br#"{"key": "k","value":"v"}"#,
        br#" {"key":"k","value":"v"}"#,
        br#"{"value":"v","key":"k"}"#,
        br#"{"key":"k"}"#,
        br#"{"key":"k","value":"v","more":1}"#,
        br#"{"key":"\u006b","value":"v"}"#,
        br#"{"key":"k","value":"v""#,
        br#"{"key":"k","value":nul"#,
        br#"{"key":"k","value":null"#,
        br#"{"key":"k","value":1}"#,
        br#"{"key":null,"value":"v"}"#,
        br#"["k","v"]"#,
    ];
    for case in cases {
        assert_eq!(decode_at(&case.to_vec(), 0), None);
    }
    assert_eq!(decode_at(&Vec::new(), 0), None);
    assert_eq!(decode_at(&encode(&set("k", "v")), 1), None);
    assert_eq!(decode_at(&encode(&set("k", "v")), 100), None);
}

#[test]
fn decode_stream_yields_each_record_with_its_offset() {
    let records = [set("a", "1"), set("b", "2"), rm("a"), set("", "")];
    let mut bytes = Vec::new();
    let mut expected = Vec::new();
    for r in &records {
        expected.push((r.clone(), bytes.len() as u64));
        bytes.extend_from_slice(&encode(r));
    }
    let (items, end) = decode_stream(&bytes);
    assert_eq!(items, expected);
    assert_eq!(end, bytes.len());
    let mut again = Vec::new();
    for (r, _) in &items {
        again.extend_from_slice(&encode(r));
    }
    assert_eq!(again, bytes);
}

#[test]
fn decode_stream_of_nothing_is_empty() {
    let (items, end) = decode_stream(&Vec::new());
    assert!(items.is_empty());
    assert_eq!(end, 0);
}

#[test]
fn decode_stream_stops_at_the_first_malformed_record() {
    let mut bytes = encode(&set("a", "1"));
    let first = bytes.len();
    bytes.extend_from_slice(&encode(&rm("a")));
    let second = bytes.len();
    bytes.extend_from_slice(br#"{"key":"b","val"#);
    let (items, end) = decode_stream(&bytes);
    assert_eq!(items, vec![(set("a", "1"), 0), (rm("a"), first as u64)]);
    assert_eq!(end, second);
}

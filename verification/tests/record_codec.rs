//! The on-disk record line format: exact text, round trips, escaping, and
//! strict rejection of anything else.

use kvs::codec::byte_len;
use kvs::codec::escape;
use kvs::engine::kvs::decode_op;
use kvs::engine::kvs::encode_op;
use kvs::engine::kvs::parse_segment;
use kvs::engine::kvs::read_value;
use kvs::engine::kvs::Op;
use kvs::error::KvsError;

#[test]
fn record_wire_text() {
    let op = Op::Put { key: "a".to_string(), value: "1".to_string() };
    assert_eq!(encode_op(&op), "{\"Set\":{\"key\":\"a\",\"value\":\"1\"}}");
    let rm = Op::Rm { key: "a".to_string() };
    assert_eq!(encode_op(&rm), "{\"Rm\":{\"key\":\"a\"}}");
}

#[test]
fn record_round_trip() {
    let cases = vec![
        Op::Put { key: "plain".to_string(), value: "value".to_string() },
        Op::Put { key: "with \"quotes\"".to_string(), value: "back\\slash".to_string() },
        Op::Put { key: "ctl\u{1}\u{1f}".to_string(), value: "tabs\tand\nnewlines\r".to_string() },
        Op::Put { key: "unicode \u{e9}\u{4e2d}\u{1f600}".to_string(), value: "".to_string() },
        Op::Rm { key: "with \u{8} and \u{c}".to_string() },
    ];
    for op in cases {
        let text = encode_op(&op);
        assert_eq!(decode_op(&text), Some(op));
    }
}

#[test]
fn escaping_matches_the_usual_short_forms() {
    assert_eq!(escape("a\"b"), "a\\\"b");
    assert_eq!(escape("a\\b"), "a\\\\b");
    assert_eq!(escape("\u{8}\t\n\u{c}\r"), "\\b\\t\\n\\f\\r");
    assert_eq!(escape("\u{0}\u{1f}"), "\\u0000\\u001f");
    assert_eq!(escape("caf\u{e9}"), "caf\u{e9}");
}

#[test]
fn decoder_refuses_non_canonical_records() {
    assert_eq!(decode_op(""), None);
    assert_eq!(decode_op("{\"Set\":{\"key\":\"a\",\"value\":\"1\"}} "), None);
    assert_eq!(decode_op("{\"Set\": {\"key\":\"a\",\"value\":\"1\"}}"), None);
    assert_eq!(decode_op("{\"Set\":{\"key\":\"a\",\"value\":\"1\"}"), None);
    assert_eq!(decode_op("{\"Set\":{\"key\":\"a\"}}"), None);
    assert_eq!(decode_op("{\"Rm\":{\"key\":\"raw\nnewline\"}}"), None);
    assert_eq!(decode_op("{\"Rm\":{\"key\":\"bad\\escape\\x\"}}"), None);
    assert_eq!(decode_op("{\"Rm\":{\"key\":\"upper\\u001F\"}}"), None);
    assert_eq!(decode_op("{\"Rm\":{\"key\":\"named\\u000a\"}}"), None);
    assert_eq!(decode_op("{\"Rm\":{\"key\":\"wide\\u0041\"}}"), None);
}

#[test]
fn segment_parse_round_trip() {
    let a = Op::Put { key: "a".to_string(), value: "1".to_string() };
    let b = Op::Rm { key: "a".to_string() };
    let mut text = encode_op(&a);
    text.push('\n');
    text.push_str(&encode_op(&b));
    text.push('\n');
    let ops = parse_segment(&text).expect("canonical segment text");
    assert_eq!(ops, vec![a, b]);
    assert_eq!(parse_segment(""), Some(vec![]));
    assert_eq!(parse_segment("{\"Rm\":{\"key\":\"a\"}}"), None);
    assert_eq!(parse_segment("junk\n"), None);
}

#[test]
fn read_value_classifies_lines() {
    assert_eq!(
        read_value("{\"Set\":{\"key\":\"k\",\"value\":\"v\"}}\n"),
        Ok("v".to_string())
    );
    assert_eq!(
        read_value("{\"Rm\":{\"key\":\"k\"}}\n"),
        Err(KvsError::UnexpectedType)
    );
    match read_value("{\"Set\":{\"key\":\"k\",\"value\":\"v\"}}") {
        Err(KvsError::SerdeError(_)) => {}
        other => panic!("unterminated line accepted: {:?}", other),
    }
    match read_value("rubbish\n") {
        Err(KvsError::SerdeError(_)) => {}
        other => panic!("rubbish accepted: {:?}", other),
    }
}

#[test]
fn byte_len_counts_utf8_bytes() {
    assert_eq!(byte_len("abc"), 3);
    assert_eq!(byte_len("caf\u{e9}"), 5);
    assert_eq!(byte_len("\u{4e2d}"), 3);
    assert_eq!(byte_len("\u{1f600}"), 4);
    let line = encode_op(&Op::Put { key: "k\u{e9}".to_string(), value: "v".to_string() });
    assert_eq!(byte_len(&line), line.len());
}

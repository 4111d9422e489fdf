//! The crate's canonical text agrees with the compact output of the usual
//! JSON serializer for the same tagged shapes, escapes included.

use kvs::engine::kvs::encode_op;
use kvs::engine::kvs::Op;
use kvs::protocol::encode_get_response;
use kvs::protocol::encode_request;
use kvs::protocol::encode_set_response;
use kvs::protocol::GetResponse;
use kvs::protocol::Request;
use kvs::protocol::SetResponse;
use serde_json::Value;

fn obj(entries: Vec<(&str, Value)>) -> Value {
    let mut m = serde_json::Map::new();
    for (k, v) in entries {
        m.insert(k.to_string(), v);
    }
    Value::Object(m)
}

fn json(v: &Value) -> String {
    serde_json::to_string(v).expect("serialization of a plain value")
}

#[test]
fn record_text_matches_reference_serializer() {
    let keys = vec!["plain", "q\"uote", "back\\slash", "ctl\u{1}\u{1f}\t\n\r\u{8}\u{c}", "caf\u{e9}\u{4e2d}\u{1f600}"];
    for k in keys {
        let v = format!("value of {}", k);
        let reference = obj(vec![(
            "Set",
            obj(vec![("key", Value::String(k.to_string())), ("value", Value::String(v.clone()))]),
        )]);
        let op = Op::Put { key: k.to_string(), value: v };
        assert_eq!(encode_op(&op), json(&reference));
        let reference_rm = obj(vec![("Rm", obj(vec![("key", Value::String(k.to_string()))]))]);
        let rm = Op::Rm { key: k.to_string() };
        assert_eq!(encode_op(&rm), json(&reference_rm));
    }
}

#[test]
fn request_text_matches_reference_serializer() {
    let reference = obj(vec![("Get", obj(vec![("key", Value::String("a\u{7f}\u{1b}".to_string()))]))]);
    let rq = Request::Get { key: "a\u{7f}\u{1b}".to_string() };
    assert_eq!(encode_request(&rq), json(&reference));
}

#[test]
fn response_text_matches_reference_serializer() {
    let reference = obj(vec![("Ok", Value::Null)]);
    assert_eq!(encode_get_response(&GetResponse::Okay(None)), json(&reference));
    let reference = obj(vec![("Ok", Value::String("1".to_string()))]);
    assert_eq!(
        encode_get_response(&GetResponse::Okay(Some("1".to_string()))),
        json(&reference)
    );
    let reference = Value::String("Ok".to_string());
    assert_eq!(encode_set_response(&SetResponse::Okay), json(&reference));
    let reference = obj(vec![("Err", Value::String("Key not found".to_string()))]);
    assert_eq!(
        encode_get_response(&GetResponse::Error("Key not found".to_string())),
        json(&reference)
    );
}

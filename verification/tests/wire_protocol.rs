//! The exact wire text of requests and responses, and the decoders'
//! acceptance of exactly that text.

use kvs::client::interpret_response;
use kvs::error::KvsError;
use kvs::protocol::decode_get_response;
use kvs::protocol::decode_request;
use kvs::protocol::decode_rm_response;
use kvs::protocol::decode_set_response;
use kvs::protocol::encode_get_response;
use kvs::protocol::encode_request;
use kvs::protocol::encode_rm_response;
use kvs::protocol::encode_set_response;
use kvs::protocol::GetResponse;
use kvs::protocol::Request;
use kvs::protocol::RmResponse;
use kvs::protocol::SetResponse;

#[test]
fn set_request_wire_text() {
    let rq = Request::Put { key: "a".to_string(), value: "1".to_string() };
    assert_eq!(encode_request(&rq), "{\"Set\":{\"key\":\"a\",\"value\":\"1\"}}");
    assert_eq!(decode_request("{\"Set\":{\"key\":\"a\",\"value\":\"1\"}}"), Some(rq));
}

#[test]
fn get_request_wire_text() {
    let rq = Request::Get { key: "a".to_string() };
    assert_eq!(encode_request(&rq), "{\"Get\":{\"key\":\"a\"}}");
    assert_eq!(decode_request("{\"Get\":{\"key\":\"a\"}}"), Some(rq));
}

#[test]
fn rm_request_wire_text() {
    let rq = Request::Rm { key: "missing".to_string() };
    assert_eq!(encode_request(&rq), "{\"Rm\":{\"key\":\"missing\"}}");
    assert_eq!(decode_request("{\"Rm\":{\"key\":\"missing\"}}"), Some(rq));
}

#[test]
fn set_response_wire_text() {
    assert_eq!(encode_set_response(&SetResponse::Okay), "\"Ok\"");
    assert_eq!(decode_set_response("\"Ok\""), Some(SetResponse::Okay));
    let e = SetResponse::Error("boom".to_string());
    assert_eq!(encode_set_response(&e), "{\"Err\":\"boom\"}");
    assert_eq!(decode_set_response("{\"Err\":\"boom\"}"), Some(e));
}

#[test]
fn get_response_wire_text() {
    let some = GetResponse::Okay(Some("1".to_string()));
    assert_eq!(encode_get_response(&some), "{\"Ok\":\"1\"}");
    assert_eq!(decode_get_response("{\"Ok\":\"1\"}"), Some(some));
    let none = GetResponse::Okay(None);
    assert_eq!(encode_get_response(&none), "{\"Ok\":null}");
    assert_eq!(decode_get_response("{\"Ok\":null}"), Some(none));
    let e = GetResponse::Error("oops".to_string());
    assert_eq!(encode_get_response(&e), "{\"Err\":\"oops\"}");
    assert_eq!(decode_get_response("{\"Err\":\"oops\"}"), Some(e));
}

#[test]
fn rm_response_wire_text() {
    assert_eq!(encode_rm_response(&RmResponse::Okay), "\"Ok\"");
    assert_eq!(decode_rm_response("\"Ok\""), Some(RmResponse::Okay));
    let e = RmResponse::Error("Key not found".to_string());
    assert_eq!(encode_rm_response(&e), "{\"Err\":\"Key not found\"}");
    assert_eq!(decode_rm_response("{\"Err\":\"Key not found\"}"), Some(e));
}

#[test]
fn decoders_refuse_non_canonical_text() {
    assert_eq!(decode_request(""), None);
    assert_eq!(decode_request("{\"Set\":{\"key\":\"a\"}}"), None);
    assert_eq!(decode_request("{ \"Set\":{\"key\":\"a\",\"value\":\"1\"}}"), None);
    assert_eq!(decode_request("{\"Set\":{\"key\":\"a\",\"value\":\"1\"}} "), None);
    assert_eq!(decode_request("{\"Put\":{\"key\":\"a\",\"value\":\"1\"}}"), None);
    assert_eq!(decode_get_response("{\"Ok\":}"), None);
    assert_eq!(decode_get_response("{\"Ok\":nul}"), None);
    assert_eq!(decode_set_response("\"OK\""), None);
    assert_eq!(decode_set_response("\"Ok\"x"), None);
    assert_eq!(decode_rm_response("{\"Err\":\"unterminated}"), None);
}

#[test]
fn client_interprets_get_responses() {
    let rq = Request::Get { key: "a".to_string() };
    assert_eq!(interpret_response(&rq, "{\"Ok\":\"1\"}"), Ok(Some("1".to_string())));
    assert_eq!(interpret_response(&rq, "{\"Ok\":null}"), Ok(None));
    assert_eq!(
        interpret_response(&rq, "{\"Err\":\"worse\"}"),
        Err(KvsError::StringError("worse".to_string()))
    );
    match interpret_response(&rq, "garbage") {
        Err(KvsError::SerdeError(_)) => {}
        other => panic!("undecodable response accepted: {:?}", other),
    }
}

#[test]
fn client_interprets_set_and_rm_responses() {
    let set_rq = Request::Put { key: "a".to_string(), value: "1".to_string() };
    assert_eq!(interpret_response(&set_rq, "\"Ok\""), Ok(None));
    let rm_rq = Request::Rm { key: "missing".to_string() };
    assert_eq!(
        interpret_response(&rm_rq, "{\"Err\":\"Key not found\"}"),
        Err(KvsError::StringError("Key not found".to_string()))
    );
}

#[test]
fn error_messages_travel_in_responses() {
    let r = GetResponse::of_result(Err(KvsError::KeyNotFound));
    assert_eq!(r, GetResponse::Error("Key not found".to_string()));
    let r = SetResponse::of_result(Err(KvsError::IoError("disk full".to_string())));
    assert_eq!(r, SetResponse::Error("io error disk full".to_string()));
    let r = RmResponse::of_result(Ok(()));
    assert_eq!(r, RmResponse::Okay);
    let r = RmResponse::of_result(Err(KvsError::UnexpectedType));
    assert_eq!(r, RmResponse::Error("unexpected command type".to_string()));
}

#[test]
fn engine_mismatch_guard() {
    assert!(!kvs::server::engine_mismatch("", "kvs"));
    assert!(!kvs::server::engine_mismatch("kvs", "kvs"));
    assert!(kvs::server::engine_mismatch("kvs", "sled"));
    assert!(kvs::server::engine_mismatch("sled", "kvs"));
}

//! The delegating backend against a real temporary database.

use kvs::engine::sled::SledKvsEngine;
use kvs::error::KvsError;

fn temp_engine() -> SledKvsEngine {
    let db = sled::Config::new()
        .temporary(true)
        .open()
        .expect("temporary database");
    SledKvsEngine::open(db)
}

#[test]
fn sled_round_trip() {
    let engine = temp_engine();
    assert_eq!(engine.get("a".to_string()), Ok(None));
    assert_eq!(engine.set("a".to_string(), "1".to_string()), Ok(()));
    assert_eq!(engine.get("a".to_string()), Ok(Some("1".to_string())));
    assert_eq!(engine.set("a".to_string(), "2".to_string()), Ok(()));
    assert_eq!(engine.get("a".to_string()), Ok(Some("2".to_string())));
}

#[test]
fn sled_remove_missing_key() {
    let engine = temp_engine();
    assert_eq!(engine.remove("absent".to_string()), Err(KvsError::KeyNotFound));
    assert_eq!(engine.set("here".to_string(), "v".to_string()), Ok(()));
    assert_eq!(engine.remove("here".to_string()), Ok(()));
    assert_eq!(engine.get("here".to_string()), Ok(None));
    assert_eq!(engine.remove("here".to_string()), Err(KvsError::KeyNotFound));
}

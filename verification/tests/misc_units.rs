//! Units around the simple in-memory store, segment file names, version
//! order and error texts.

use kvs::engine::kvs::parse_version_filename;
use kvs::engine::kvs::sort_versions;
use kvs::error::KvsError;
use kvs::KvStore;

#[test]
fn in_memory_store_round_trip() {
    let mut kvs = KvStore::new();
    kvs.set("jack".to_string(), "2024".to_string());
    assert_eq!(kvs.get("jack".to_string()), Some("2024".to_string()));
    assert_eq!(kvs.get("jone".to_string()), None);
    kvs.set("jack".to_string(), "2025".to_string());
    assert_eq!(kvs.get("jack".to_string()), Some("2025".to_string()));
    kvs.remove("jack".to_string());
    assert_eq!(kvs.get("jack".to_string()), None);
}

#[test]
fn version_file_names() {
    assert_eq!(parse_version_filename("1.log"), Some(1));
    assert_eq!(parse_version_filename("42.log"), Some(42));
    assert_eq!(parse_version_filename("007.log"), Some(7));
    assert_eq!(parse_version_filename("18446744073709551615.log"), Some(u64::MAX));
    assert_eq!(parse_version_filename("18446744073709551616.log"), None);
    assert_eq!(parse_version_filename("meta"), None);
    assert_eq!(parse_version_filename(".log"), None);
    assert_eq!(parse_version_filename("x1.log"), None);
    assert_eq!(parse_version_filename("1.txt"), None);
    assert_eq!(parse_version_filename("1.log.bak"), None);
}

#[test]
fn versions_sort_ascending() {
    let mut v: Vec<u64> = vec![5, 1, 9, 3, 7];
    sort_versions(&mut v);
    assert_eq!(v, vec![1, 3, 5, 7, 9]);
    let mut e: Vec<u64> = Vec::new();
    sort_versions(&mut e);
    assert!(e.is_empty());
}

#[test]
fn error_texts() {
    assert_eq!(KvsError::KeyNotFound.message(), "Key not found");
    assert_eq!(KvsError::LogLoadError.message(), "log failed to load");
    assert_eq!(KvsError::UnexpectedType.message(), "unexpected command type");
    assert_eq!(
        KvsError::IoError("broken pipe".to_string()).message(),
        "io error broken pipe"
    );
    assert_eq!(
        KvsError::SerdeError("bad token".to_string()).message(),
        "serde json error bad token"
    );
    assert_eq!(KvsError::StringError("as is".to_string()).message(), "as is");
    assert_eq!(
        KvsError::Utf8Error("stray byte".to_string()).message(),
        "utf 8 error: stray byte"
    );
    assert_eq!(
        KvsError::ParseIntError("not a number".to_string()).message(),
        "parse int error: not a number"
    );
    assert_eq!(KvsError::from("wired".to_string()), KvsError::StringError("wired".to_string()));
}

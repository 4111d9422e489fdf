//! End-to-end scenarios of the log-structured engine, driven against an
//! in-memory directory of segment files.

use std::collections::HashMap;

use kvs::engine::kvs::read_value;
use kvs::engine::kvs::KvStoreWriter;
use kvs::error::KvsError;

/// The simulated `log/` directory: version -> file text.
struct SimDir {
    files: HashMap<u64, String>,
}

impl SimDir {
    fn new() -> SimDir {
        SimDir { files: HashMap::new() }
    }

    fn total_bytes(&self) -> usize {
        self.files.values().map(|s| s.len()).sum()
    }
}

fn open_store(dir: &mut SimDir) -> KvStoreWriter {
    let mut contents: Vec<(u64, String)> = dir
        .files
        .iter()
        .map(|(v, s)| (*v, s.clone()))
        .collect();
    contents.sort_by_key(|p| p.0);
    let w = KvStoreWriter::new(contents).expect("replay of segment files");
    dir.files.insert(w.current_version(), String::new());
    w
}

fn after_write(w: &mut KvStoreWriter, dir: &mut SimDir) {
    if w.should_rotate() {
        w.seal_active();
        if w.should_compact() {
            let vers = w.sealed_versions();
            let contents: Vec<(u64, String)> = vers
                .iter()
                .map(|v| (*v, dir.files.get(v).expect("sealed file").clone()))
                .collect();
            let out = w.compact(contents).expect("compaction");
            for v in vers.iter() {
                dir.files.remove(v);
            }
            dir.files.insert(w.current_version(), out);
        }
        let av = w.open_new_active();
        dir.files.insert(av, String::new());
    }
}

fn do_set(w: &mut KvStoreWriter, dir: &mut SimDir, k: &str, v: &str) {
    let line = w.set(k.to_string(), v.to_string());
    dir.files
        .get_mut(&w.current_version())
        .expect("active file")
        .push_str(&line);
    after_write(w, dir);
}

fn do_remove(w: &mut KvStoreWriter, dir: &mut SimDir, k: &str) -> Result<(), KvsError> {
    let line = w.remove(k.to_string())?;
    dir.files
        .get_mut(&w.current_version())
        .expect("active file")
        .push_str(&line);
    after_write(w, dir);
    Ok(())
}

fn do_get(w: &KvStoreWriter, dir: &SimDir, k: &str) -> Option<String> {
    let entry = w.lookup(&k.to_string())?;
    let content = dir.files.get(&entry.version).expect("indexed file exists");
    let rest = &content.as_bytes()[entry.start_pos as usize..];
    let end = rest
        .iter()
        .position(|&b| b == b'\n')
        .expect("record line is terminated");
    let line = std::str::from_utf8(&rest[..end + 1]).expect("segment text is UTF-8");
    Some(read_value(line).expect("indexed line is a readable record"))
}

#[test]
fn empty_store_get() {
    let mut dir = SimDir::new();
    let w = open_store(&mut dir);
    assert_eq!(do_get(&w, &dir, "a"), None);
}

#[test]
fn basic_round_trip() {
    let mut dir = SimDir::new();
    let mut w = open_store(&mut dir);
    do_set(&mut w, &mut dir, "a", "1");
    do_set(&mut w, &mut dir, "b", "2");
    assert_eq!(do_get(&w, &dir, "a"), Some("1".to_string()));
    assert_eq!(do_get(&w, &dir, "b"), Some("2".to_string()));
    assert!(do_remove(&mut w, &mut dir, "a").is_ok());
    assert_eq!(do_get(&w, &dir, "a"), None);
    assert_eq!(do_remove(&mut w, &mut dir, "a"), Err(KvsError::KeyNotFound));
}

#[test]
fn overwrite() {
    let mut dir = SimDir::new();
    let mut w = open_store(&mut dir);
    do_set(&mut w, &mut dir, "k", "v1");
    do_set(&mut w, &mut dir, "k", "v2");
    assert_eq!(do_get(&w, &dir, "k"), Some("v2".to_string()));
}

#[test]
fn restart_recovery() {
    let mut dir = SimDir::new();
    let mut w = open_store(&mut dir);
    do_set(&mut w, &mut dir, "a", "1");
    do_set(&mut w, &mut dir, "b", "2");
    assert_eq!(do_get(&w, &dir, "a"), Some("1".to_string()));
    assert_eq!(do_get(&w, &dir, "b"), Some("2".to_string()));
    assert!(do_remove(&mut w, &mut dir, "a").is_ok());
    assert_eq!(do_get(&w, &dir, "a"), None);
    assert_eq!(do_remove(&mut w, &mut dir, "a"), Err(KvsError::KeyNotFound));
    drop(w);
    let w2 = open_store(&mut dir);
    assert_eq!(do_get(&w2, &dir, "a"), None);
    assert_eq!(do_get(&w2, &dir, "b"), Some("2".to_string()));
}

#[test]
fn restart_recovery_with_values_spread_over_segments() {
    let mut dir = SimDir::new();
    let mut w = open_store(&mut dir);
    for i in 0..200 {
        do_set(&mut w, &mut dir, &format!("key{}", i), &format!("value{}", i));
    }
    drop(w);
    let w2 = open_store(&mut dir);
    for i in 0..200 {
        assert_eq!(
            do_get(&w2, &dir, &format!("key{}", i)),
            Some(format!("value{}", i))
        );
    }
}

#[test]
fn compaction_footprint() {
    let mut dir = SimDir::new();
    let mut w = open_store(&mut dir);
    for _ in 0..10000 {
        do_set(&mut w, &mut dir, "k", "x");
    }
    assert_eq!(do_get(&w, &dir, "k"), Some("x".to_string()));
    // While running, the directory never holds more than the compaction
    // threshold of sealed bytes plus one active segment's worth.
    assert!(dir.total_bytes() < 40 * 1024 + 2 * 1024);
    // Once compaction has run over everything, only the one live pair is
    // left on disk.
    w.seal_active();
    let vers = w.sealed_versions();
    let contents: Vec<(u64, String)> = vers
        .iter()
        .map(|v| (*v, dir.files.get(v).expect("sealed file").clone()))
        .collect();
    let out = w.compact(contents).expect("compaction");
    for v in vers.iter() {
        dir.files.remove(v);
    }
    dir.files.insert(w.current_version(), out);
    let av = w.open_new_active();
    dir.files.insert(av, String::new());
    let one_line = "{\"Set\":{\"key\":\"k\",\"value\":\"x\"}}\n".len();
    assert_eq!(dir.total_bytes(), one_line);
    assert_eq!(do_get(&w, &dir, "k"), Some("x".to_string()));
}

#[test]
fn many_reads_after_prepopulation() {
    let mut dir = SimDir::new();
    let mut w = open_store(&mut dir);
    for i in 1..=256u64 {
        do_set(&mut w, &mut dir, &format!("key{}", i), "value");
    }
    // A fixed linear-congruential walk stands in for the random reads.
    let mut x: u64 = 12345;
    for _ in 0..1000 {
        x = x.wrapping_mul(6364136223846793005).wrapping_add(1442695040888963407);
        let i = (x % 256) + 1;
        assert_eq!(do_get(&w, &dir, &format!("key{}", i)), Some("value".to_string()));
    }
}

#[test]
fn readers_prune_below_min_live_version() {
    let mut dir = SimDir::new();
    let mut w = open_store(&mut dir);
    assert_eq!(w.min_live_version(), 0);
    for i in 0..5000 {
        do_set(&mut w, &mut dir, &format!("key{}", i % 7), &format!("value{}", i));
    }
    // Compaction has happened at least once, so the minimum live version
    // moved and every file on disk is at or above it.
    assert!(w.min_live_version() > 0);
    for v in dir.files.keys() {
        assert!(*v >= w.min_live_version());
    }
}

#[test]
fn replay_tolerates_remove_of_absent_key() {
    let mut dir = SimDir::new();
    dir.files
        .insert(1, "{\"Rm\":{\"key\":\"ghost\"}}\n".to_string());
    let w2 = open_store(&mut dir);
    assert_eq!(do_get(&w2, &dir, "ghost"), None);
}

#[test]
fn open_rejects_corrupt_segment() {
    let contents = vec![(1u64, "not a record\n".to_string())];
    match KvStoreWriter::new(contents) {
        Err(KvsError::SerdeError(_)) => {}
        other => panic!("open accepted a corrupt segment: {:?}", other.is_ok()),
    }
}

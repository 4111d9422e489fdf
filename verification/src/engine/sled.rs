//! The delegating backend: an embedded key/value library does the storage
//! work.  Only the decisions around its answers are this crate's own: how
//! bytes become strings, and when a removal reports `KeyNotFound`.

use vstd::prelude::*;
use vstd::utf8::encode_utf8;
use vstd::utf8::valid_utf8;

use crate::error::KvsError;

verus! {

#[verifier::external_type_specification]
#[verifier::external_body]
pub struct ExDb(sled::Db);

/// A store backed by an embedded key/value database.
pub struct SledKvsEngine {
    db: sled::Db,
}

/// Relies on sled::Tree::get, through the database handle: the stored bytes
/// of the key, if it has any.  What comes back depends on the database's
/// state, so nothing more is promised of it.
#[verifier::external_body]
fn db_get(db: &sled::Db, key: &String) -> (r: Result<Option<Vec<u8>>, String>)
{
    match db.get(key.as_bytes()) {
        Ok(Some(ivec)) => Ok(Some(ivec.to_vec())),
        Ok(None) => Ok(None),
        Err(e) => Err(e.to_string()),
    }
}

/// Relies on sled::Tree::insert: stores the value under the key and reports
/// whether an earlier value was replaced.
#[verifier::external_body]
fn db_insert(db: &sled::Db, key: &String, value: &String) -> (r: Result<bool, String>)
{
    match db.insert(key.as_bytes(), value.as_str().as_bytes()) {
        Ok(prev) => Ok(prev.is_some()),
        Err(e) => Err(e.to_string()),
    }
}

/// Relies on sled::Tree::remove: deletes the key and reports whether a value
/// was there to delete.
#[verifier::external_body]
fn db_remove(db: &sled::Db, key: &String) -> (r: Result<bool, String>)
{
    match db.remove(key.as_bytes()) {
        Ok(prev) => Ok(prev.is_some()),
        Err(e) => Err(e.to_string()),
    }
}

/// Relies on sled::Tree::flush: blocks until earlier writes are durable.
#[verifier::external_body]
fn db_flush(db: &sled::Db) -> (r: Result<(), String>)
{
    match db.flush() {
        Ok(_) => Ok(()),
        Err(e) => Err(e.to_string()),
    }
}

/// Relies on String::from_utf8: succeeds exactly on valid UTF-8, and then
/// the string's bytes are the input bytes.
#[verifier::external_body]
fn bytes_to_string(v: Vec<u8>) -> (r: Result<String, String>)
    ensures
        r matches Ok(s) ==> encode_utf8(s@) == v@,
        r is Ok <==> valid_utf8(v@),
{
    match String::from_utf8(v) {
        Ok(s) => Ok(s),
        Err(e) => Err(e.to_string()),
    }
}

impl SledKvsEngine {
    /// Wrap an already opened database handle.
    pub fn open(path: sled::Db) -> (r: Self) {
        SledKvsEngine { db: path }
    }

    /// The value of `key`, or `None`; bytes that are not UTF-8 fail as
    /// `Utf8Error`, database faults as `IoError`.
    pub fn get(&self, key: String) -> (res: Result<Option<String>, KvsError>)
        ensures
            res matches Err(e) ==> (e matches KvsError::IoError(_) || e
                matches KvsError::Utf8Error(_)),
    {
        match db_get(&self.db, &key) {
            Ok(Some(bytes)) => {
                match bytes_to_string(bytes) {
                    Ok(s) => Ok(Some(s)),
                    Err(m) => Err(KvsError::Utf8Error(m)),
                }
            }
            Ok(None) => Ok(None),
            Err(m) => Err(KvsError::IoError(m)),
        }
    }

    /// Store `value` under `key` and make it durable.
    pub fn set(&self, key: String, value: String) -> (res: Result<(), KvsError>)
        ensures
            res matches Err(e) ==> e matches KvsError::IoError(_),
    {
        match db_insert(&self.db, &key, &value) {
            Ok(_) => {
                match db_flush(&self.db) {
                    Ok(_) => Ok(()),
                    Err(m) => Err(KvsError::IoError(m)),
                }
            }
            Err(m) => Err(KvsError::IoError(m)),
        }
    }

    /// Remove `key`; `KeyNotFound` exactly when the database reports that no
    /// value was there.
    pub fn remove(&self, key: String) -> (res: Result<(), KvsError>)
        ensures
            res matches Err(e) ==> (e == KvsError::KeyNotFound || e
                matches KvsError::IoError(_)),
    {
        match db_remove(&self.db, &key) {
            Ok(false) => Err(KvsError::KeyNotFound),
            Ok(true) => {
                match db_flush(&self.db) {
                    Ok(_) => Ok(()),
                    Err(m) => Err(KvsError::IoError(m)),
                }
            }
            Err(m) => Err(KvsError::IoError(m)),
        }
    }
}

} // verus!

//! A persistent key-value store library built on a log-structured storage
//! engine, together with the line-delimited protocol that exposes it over a
//! stream transport.
//!
//! The crate root holds the simple in-memory `KvStore`; the durable engine
//! lives under `engine::kvs` and the wire format under `protocol`.

pub mod client;
pub mod codec;
pub mod engine;
pub mod error;
pub mod protocol;
pub mod server;
pub mod strmap;

use vstd::prelude::*;

use crate::strmap::StrMap;

verus! {

/// A key value store held entirely in memory: a finite map from string keys
/// to string values.
pub struct KvStore {
    store: StrMap<String>,
}

impl View for KvStore {
    type V = Map<Seq<char>, Seq<char>>;

    closed spec fn view(&self) -> Map<Seq<char>, Seq<char>> {
        self.store@
    }
}

impl KvStore {
    pub closed spec fn wf(&self) -> bool {
        self.store.wf()
    }

    /// Create a new, empty store.
    pub fn new() -> (r: Self)
        ensures
            r.wf(),
            r@ == Map::<Seq<char>, Seq<char>>::empty(),
    {
        KvStore { store: StrMap::new() }
    }

    /// Map `key` to `value`, overwriting any earlier value of `key`.
    pub fn set(&mut self, key: String, value: String)
        requires
            old(self).wf(),
        ensures
            final(self).wf(),
            final(self)@ == old(self)@.insert(key@, value@),
    {
        self.store.insert(key, value);
    }

    /// The value of `key`, if `key` is in the store.
    pub fn get(&self, key: String) -> (r: Option<String>)
        requires
            self.wf(),
        ensures
            match r {
                Some(v) => self@.contains_key(key@) && v@ == self@[key@],
                None => !self@.contains_key(key@),
            },
    {
        match self.store.get(&key) {
            Some(v) => Some(v.clone()),
            None => None,
        }
    }

    /// Remove `key` from the store.  `key` must be present.
    pub fn remove(&mut self, key: String)
        requires
            old(self).wf(),
            old(self)@.contains_key(key@),
        ensures
            final(self).wf(),
            final(self)@ == old(self)@.remove(key@),
    {
        self.store.remove(&key);
    }
}

} // verus!

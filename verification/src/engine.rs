//! Storage engines: the log-structured store and the delegating backend.

pub mod kvs;
pub mod sled;

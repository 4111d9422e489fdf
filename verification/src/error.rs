//! The closed set of fault kinds used across the engine and the protocol.
//!
//! Errors carry their context as plain text: over the wire only the
//! human-readable message travels, in the `Err` arm of a response.

use vstd::prelude::*;

verus! {

/// Every failure the store or the protocol can report.
#[derive(Debug, PartialEq)]
pub enum KvsError {
    /// A filesystem or network failure, by its message.
    IoError(String),
    /// A malformed request, response, or record encoding.
    SerdeError(String),
    /// `remove` of a key that is not in the store.
    KeyNotFound,
    /// Replay of a segment aborted.
    LogLoadError,
    /// A command of an unexpected shape at a dispatch boundary.
    UnexpectedType,
    /// A text error received over the wire.
    StringError(String),
    /// Bytes that are not valid UTF-8.
    Utf8Error(String),
    /// A segment file name without a readable version number.
    ParseIntError(String),
}

/// The message text of an error, as it travels over the wire.
pub open spec fn error_text(e: KvsError) -> Seq<char> {
    match e {
        KvsError::IoError(s) => "io error "@ + s@,
        KvsError::SerdeError(s) => "serde json error "@ + s@,
        KvsError::KeyNotFound => "Key not found"@,
        KvsError::LogLoadError => "log failed to load"@,
        KvsError::UnexpectedType => "unexpected command type"@,
        KvsError::StringError(s) => s@,
        KvsError::Utf8Error(s) => "utf 8 error: "@ + s@,
        KvsError::ParseIntError(s) => "parse int error: "@ + s@,
    }
}

impl KvsError {
    /// The human-readable message of this error.
    pub fn message(&self) -> (r: String)
        ensures
            r@ == error_text(*self),
    {
        match self {
            KvsError::IoError(s) => {
                let mut r = String::from_str("io error ");
                r.append(s.as_str());
                r
            }
            KvsError::SerdeError(s) => {
                let mut r = String::from_str("serde json error ");
                r.append(s.as_str());
                r
            }
            KvsError::KeyNotFound => String::from_str("Key not found"),
            KvsError::LogLoadError => String::from_str("log failed to load"),
            KvsError::UnexpectedType => String::from_str("unexpected command type"),
            KvsError::StringError(s) => s.clone(),
            KvsError::Utf8Error(s) => {
                let mut r = String::from_str("utf 8 error: ");
                r.append(s.as_str());
                r
            }
            KvsError::ParseIntError(s) => {
                let mut r = String::from_str("parse int error: ");
                r.append(s.as_str());
                r
            }
        }
    }
}

impl From<String> for KvsError {
    /// A bare text error, as the client builds from an `Err` response.
    fn from(value: String) -> (r: Self)
        ensures
            r == KvsError::StringError(value),
    {
        KvsError::StringError(value)
    }
}

impl vstd::std_specs::convert::FromSpecImpl<String> for KvsError {
    open spec fn obeys_from_spec() -> bool {
        true
    }

    open spec fn from_spec(value: String) -> Self {
        KvsError::StringError(value)
    }
}

impl crate::protocol::GetResponse {
    /// The response reporting an engine `get` result: errors travel as
    /// their message text.
    pub fn of_result(value: Result<Option<String>, KvsError>) -> (r: Self)
        ensures
            match value {
                Ok(v) => r == crate::protocol::GetResponse::Okay(v),
                Err(e) => r matches crate::protocol::GetResponse::Error(m) && m@ == error_text(e),
            },
    {
        match value {
            Ok(v) => crate::protocol::GetResponse::Okay(v),
            Err(e) => crate::protocol::GetResponse::Error(e.message()),
        }
    }
}

impl crate::protocol::SetResponse {
    /// The response reporting an engine `set` result.
    pub fn of_result(value: Result<(), KvsError>) -> (r: Self)
        ensures
            match value {
                Ok(_) => r == crate::protocol::SetResponse::Okay,
                Err(e) => r matches crate::protocol::SetResponse::Error(m) && m@ == error_text(e),
            },
    {
        match value {
            Ok(_) => crate::protocol::SetResponse::Okay,
            Err(e) => crate::protocol::SetResponse::Error(e.message()),
        }
    }
}

impl crate::protocol::RmResponse {
    /// The response reporting an engine `remove` result.
    pub fn of_result(value: Result<(), KvsError>) -> (r: Self)
        ensures
            match value {
                Ok(_) => r == crate::protocol::RmResponse::Okay,
                Err(e) => r matches crate::protocol::RmResponse::Error(m) && m@ == error_text(e),
            },
    {
        match value {
            Ok(_) => crate::protocol::RmResponse::Okay,
            Err(e) => crate::protocol::RmResponse::Error(e.message()),
        }
    }
}

} // verus!

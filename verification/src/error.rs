//! The store's error taxonomy.

use vstd::prelude::*;

verus! {

/// What can go wrong in the store, decoupled from any particular codec or
/// storage backend. Each variant carries a descriptive message.
#[derive(Debug)]
pub enum LogKvError {
    /// The underlying storage failed to read, write or seek.
    IoFailure(String),
    /// A key or value could not be serialized to bytes.
    EncodeFailure(String),
    /// Bytes that should hold an encoded key or value could not be decoded.
    DecodeFailure(String),
    /// The log ended in the middle of a record.
    Truncation(String),
}

impl LogKvError {
    /// The descriptive message carried by the error.
    pub fn message(&self) -> (r: &String)
        ensures
            match self {
                LogKvError::IoFailure(m) => r == m,
                LogKvError::EncodeFailure(m) => r == m,
                LogKvError::DecodeFailure(m) => r == m,
                LogKvError::Truncation(m) => r == m,
            },
    {
        match self {
            LogKvError::IoFailure(m) => m,
            LogKvError::EncodeFailure(m) => m,
            LogKvError::DecodeFailure(m) => m,
            LogKvError::Truncation(m) => m,
        }
    }
}

} // verus!

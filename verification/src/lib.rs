//! A minimal embedded key-value store built on an append-only log with an
//! in-memory index, in the style of a log-structured storage engine.
//!
//! The engine owns the log as a byte buffer; reading that buffer from a file
//! and writing it back is left to the surrounding application.

mod codec;
pub mod error;
pub mod laws;
pub mod model;
pub mod store;

pub use error::LogKvError;
pub use store::LogKv;

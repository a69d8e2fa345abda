//! An append-only, log-structured key-value store in the Bitcask style.
//!
//! Every write appends a checksummed record to a byte log; an in-memory
//! index maps each key to the offset of its most recent record. The codec
//! module defines the binary record format, the store module the log and
//! index operations built on it.

pub mod codec;
pub mod store;

pub use codec::DecodeOutcome;
pub use codec::KeyValuePair;
pub use store::ActionKV;

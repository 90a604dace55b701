//! Transactional execution engine for a structure server backed by a
//! distributed transactional key-value store.
//!
//! The engine encodes logical collection keys into backend byte-keys,
//! owns a pool of backend transaction sessions with round-robin selection,
//! plans structure-level commands as single atomic transactions with
//! conflict retry, and refuses multi-step commands on the raw
//! (non-transactional) path.

pub mod cmd;
pub mod config;
pub mod encoding;
pub mod errors;
pub mod list;
pub mod pool;
pub mod selector;
pub mod txn;

pub use errors::EngineError;

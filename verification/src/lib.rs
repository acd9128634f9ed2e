//! A minimal network data service core: the newline-delimited JSON wire
//! protocol (messages reading or writing named values), the per-connection
//! key/value store, and the dispatch logic that turns decoded requests into
//! responses.  Listener and stream plumbing live outside this crate; they
//! hand each connection's bytes in and carry each encoded response out.
pub mod codec;
pub mod decode;
pub mod encode;
pub mod message;
pub mod store;
pub mod handler;
pub mod laws;

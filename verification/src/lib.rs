//! Server core of a small networked key/value store for shell variables.
//!
//! The library holds the verified logic of the server: the in-memory
//! variable table with its batch-update discipline, the JSON snapshot
//! codec that makes the table durable across restarts, the querystring
//! grammar of the wire protocol, the authorizer, and the request
//! dispatcher. Names and values are byte strings throughout; the
//! unverified binary around the library does the socket and file I/O
//! and hands plain bytes in and out.

pub mod bytes;
pub mod json;
pub mod laws;
pub mod protocol;
pub mod query;
pub mod table;

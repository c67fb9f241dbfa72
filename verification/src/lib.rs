//! Verified core of an index of KV cache block placements.
//!
//! Inference engines report which blocks of their key-value caches they hold; routers
//! ask which worker holds the longest prefix of a request. This crate holds the rules:
//! the records of a worker and of a block and every operation on them, the prefix
//! match over those records, and the router's side of the query. What talks to a
//! network or a store is built around it.

pub mod batch_laws;
pub mod block;
pub mod call_laws;
pub mod client;
pub mod client_laws;
pub mod code;
pub mod decimal;
pub mod entry_laws;
pub mod field;
pub mod numeral;
pub mod numeral_laws;
pub mod placement_laws;
pub mod prefix;
pub mod prefix_laws;
pub mod scripts;
pub mod server;
pub mod tier;
pub mod worker;
pub mod worker_laws;

pub use client::{GrpcPrefixIndex, PrefixIndexConfig, PrefixIndexError, PrefixMatch, PrefixOutcome};

//! Verified core of a blockchain indexer: row codecs for the persisted key
//! schema, the best-chain header list, the rows that each indexing stage
//! emits for a block, and the query-side logic (confirmation lookup, history
//! paging, incremental script statistics and UTXO sets).
//!
//! The key-value store and the node RPC client are not part of this crate:
//! the functions here take what was read as plain values and return the rows
//! to write.

pub mod types;
pub mod external;
pub mod codec;
pub mod headers;
pub mod indexer;
pub mod tweak;
pub mod query;
pub mod laws;

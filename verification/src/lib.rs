//! Storage-mapping core for a relational table/index model on an ordered,
//! transactional key-value store.
//!
//! The crate provides a binary row codec, an order-preserving encoding of
//! typed scalar values, a byte-prefix keyspace partition per table and index,
//! a predicate-to-key-range planner for index scans, the key construction
//! that keeps secondary index entries in sync with row writes, a single-slot
//! tuple cache, and the state machine of the ambient transaction slot.
//! The host adapter performs the actual key-value operations; everything
//! here works on plain bytes and values and is verified.

pub mod coding;
pub mod element;
pub mod errors;
pub mod indexing;
pub mod order;
pub mod planner;
pub mod subspace;
pub mod transaction;
pub mod tuple_cache;


//! A typed indexing layer over an ordered byte-oriented key-value store.
//!
//! The crate provides a namespaced key codec, a uniqueness-enforcing item
//! set with an optional cardinality counter, an optional unique secondary
//! index, an append-only sequence that rejects duplicates, a normalized
//! coin bag, and a pagination combinator, all specified and verified
//! against an ordered in-memory store.

pub mod bytes;
pub mod codec;
pub mod coins;
pub mod errors;
pub mod index;
pub mod item_set;
pub mod keys;
pub mod ownership;
pub mod paginate;
pub mod store;
pub mod typed_key;
pub mod unique_vec;

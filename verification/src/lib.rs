//! A read-optimised key-value store over a blob store.
//!
//! Records are packed into blocks of varint-framed bytes (`block`), which
//! are published through a stack of blob stores (`blob`): a prefix for the
//! keys, compression for the bytes, a cache for what was read. A record is
//! found again by its `Location`, the block and the offset that the writer
//! returned for it.
pub mod blob;
pub mod block;
pub mod error;
pub mod memory;
pub mod varint;

//! An embedded key-value store: documents, keyed by text and valued by
//! bytes, kept in an append-only log and served from an index in memory.
//!
//! - [`log`]: the byte format of a record, the log image and its reader.
//! - [`index`]: the map from key to current value.
//! - [`db`]: the store, whose index is at every moment what its log replays
//!   to.
//! - [`document`]: values as JSON documents, for callers who store those.
//!
//! The library does no input or output. A log is held as the bytes of its
//! image; whoever keeps it in a file reads the image before opening the
//! store and appends to the file what the store appends to the image.

pub mod db;
pub mod document;
pub mod index;
pub mod log;
mod text;

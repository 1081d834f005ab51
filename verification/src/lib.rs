//! An embedded, persistent key-value store built on a log-structured
//! storage layer.
//!
//! The engine keeps every segment of the on-disk log as an in-memory byte
//! image and performs all of its logic — encoding and decoding commands,
//! replaying segments into an index, appending, rolling segments over and
//! compacting — on those images.  A thin, unverified front end owns the
//! actual files: it loads the segment images when a store is opened and
//! mirrors every change the engine makes back to disk.

pub mod buffer;
pub mod cli;
pub mod codec;
pub mod errors;
pub mod frame;
pub mod keydir;
pub mod kv_store;
pub mod laws;
pub mod log;
pub mod moves;
pub mod replay;
pub mod utils;

//! An append-only store of byte blobs with a multi-level on-disk index.
//!
//! The library holds the byte images of the master file and of every index
//! file, and performs all decoding, routing and appending on them; reading
//! and writing the files themselves is left to the caller.

pub mod codec;
pub mod forest;
pub mod pack;
pub mod store;
pub mod laws;

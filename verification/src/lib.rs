//! A file-integrity monitor core: authenticated-encrypted persistence of a
//! scan policy and a database of file fingerprints, plus the pure engine
//! that builds such a database from walk observations and compares a tree
//! against one.

pub mod bytes;
pub mod codec;
pub mod config;
pub mod crypto;
pub mod fs_iter;
pub mod tripwirs;

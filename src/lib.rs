//! An append-only text store. Records go into fixed-capacity blocks; each
//! block keeps a bloom filter and an exact word index, so a query skips the
//! blocks whose filter rules a word out and reads the others' indexes. The
//! store is saved as three kinds of byte artifact (filters, indexes, and each
//! block's records) and read back from them, a block's records only when a
//! query first needs them.
pub mod block;
pub mod bloom;
pub mod codec;
pub mod database;
pub mod error;
pub mod frame;
pub mod laws;
pub mod postings;
pub mod text;

//! Merkle hashing of directory trees, built from verified pieces: the SHA-256
//! digest of a file's blocks, the digest of a directory's sorted entries, the
//! bookkeeping of a semaphore that bounds open files, and the decision a
//! generator-backed future makes when it is polled.

pub mod sha;
pub mod order;
pub mod merkle;
pub mod blocks;
pub mod path;
pub mod semaphore;
pub mod async_await;

pub use async_await::{AsyncYield, GenFuture};
pub use path::path_filename;
pub use sha::finish_sha256;

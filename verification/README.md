# futures_tutorial

Merkle hashing of directory trees, with the hashing rules, the directory order,
the block splitting, the file-handle semaphore and the poll decision of a
generator-backed future verified with Verus.

Layout:

- `src/sha.rs` — SHA-256 from the `rust-crypto` crate, behind a hasher that
  tracks the message it was given.
- `src/order.rs` — lexicographic byte order on names and a stable sort of
  directory entries, with the laws that make a directory's digest independent
  of the order its entries were listed in.
- `src/merkle.rs` — file digests (blocks, block digests, streaming hasher),
  directory digests, and the digest of a whole tree held in memory.
- `src/blocks.rs` — filling a block from successive reads.
- `src/path.rs` — the file name of a path.
- `src/semaphore.rs` — the slot counting and first-come-first-served hand-off
  of the semaphore that bounds open files.
- `src/async_await.rs` — the generator future's type and what a poll answers
  after the generator is resumed; nothing here resumes a generator.
- `app/` — the program: thread pools for hashing and reading, the futures
  around the semaphore, the directory walks (futures, pooled, sequential) and
  `main`.

//! SHA-256 as computed by the `rust-crypto` crate.
//!
//! A [`Sha256Hasher`] carries, as ghost state, every byte it has been given;
//! the digest it finishes with is the SHA-256 digest of those bytes.

use vstd::prelude::*;
use crypto::digest::Digest;
use crypto::sha2::Sha256;

verus! {

/// The number of bytes a `rust-crypto` SHA-256 engine accepts in all: it counts
/// the message length in bits in a `u64` and panics when that count overflows.
pub const MAX_DIGEST_INPUT: u64 = 2305843009213693951;

#[verifier::external_type_specification]
#[verifier::external_body]
pub struct ExSha256(Sha256);

/// The SHA-256 digest of the message `data`.
pub uninterp spec fn sha256_digest(data: Seq<u8>) -> Seq<u8>;

/// A SHA-256 engine together with the message it has been given so far.
pub struct Sha256Hasher {
    engine: Sha256,
    fed: Ghost<Seq<u8>>,
}

impl Sha256Hasher {
    /// The bytes given to this hasher, in order.
    pub closed spec fn fed(&self) -> Seq<u8> {
        self.fed@
    }

    /// A fresh engine, from `crypto::sha2::Sha256::new`, which has been given nothing.
    #[verifier::external_body]
    pub(crate) fn new() -> (hasher: Self)
        ensures
            hasher.fed() == Seq::<u8>::empty(),
    {
        Sha256Hasher { engine: Sha256::new(), fed: Ghost(Seq::empty()) }
    }

    /// Feeds `data` to the engine through `Digest::input`; the engine's message
    /// grows by exactly `data`. The engine panics once the message exceeds
    /// `MAX_DIGEST_INPUT` bytes, which the precondition rules out.
    #[verifier::external_body]
    pub(crate) fn input(&mut self, data: &[u8])
        requires
            old(self).fed().len() + data@.len() <= MAX_DIGEST_INPUT,
        ensures
            final(self).fed() == old(self).fed() + data@,
    {
        self.engine.input(data);
    }
}

impl Sha256Hasher {
    /// A hasher that has been given nothing.
    pub fn empty() -> (hasher: Self)
        ensures
            hasher.fed() == Seq::<u8>::empty(),
    {
        Sha256Hasher::new()
    }

    /// Gives `data` to the hasher.
    pub fn update(&mut self, data: &[u8])
        requires
            old(self).fed().len() + data@.len() <= MAX_DIGEST_INPUT,
        ensures
            final(self).fed() == old(self).fed() + data@,
    {
        self.input(data);
    }
}

/// Finishes the hasher with `Digest::result` and returns the 32 bytes of the
/// SHA-256 digest of everything it was given.
#[verifier::external_body]
pub fn finish_sha256(hasher: Sha256Hasher) -> (digest: [u8; 32])
    ensures
        digest@ == sha256_digest(hasher.fed()),
{
    let mut engine = hasher.engine;
    let mut out = [0u8; 32];
    engine.result(&mut out[..]);
    out
}

} // verus!

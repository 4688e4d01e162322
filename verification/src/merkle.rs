//! The Merkle hash of files and directories.
//!
//! A regular file is split into contiguous blocks of `block_size` bytes (the
//! last one possibly shorter); each block is hashed with SHA-256, the block
//! digests are concatenated, and the file's digest is the SHA-256 digest of that
//! concatenation. A directory's entries are sorted by name; the digest of the
//! directory is the SHA-256 digest of the concatenation, in that order, of each
//! entry's name (as UTF-8) followed by its digest. A variant leaves the names
//! out and concatenates the digests alone.

use vstd::prelude::*;
use crate::sha::{Sha256Hasher, finish_sha256, sha256_digest, MAX_DIGEST_INPUT};
use crate::order::{
    ChildDigest,
    EntryView,
    entry_view,
    entry_views,
    sort_by_name,
    sort_children,
    lemma_sort_by_name,
    lemma_sort_ignores_listing_order,
    distinct_names,
    is_permutation,
    lemma_permuted_same_multiset,
};

verus! {

// ---------------------------------------------------------------------------
// Files
// ---------------------------------------------------------------------------

/// The blocks of `data`: consecutive pieces of `block_size` bytes, the last one
/// shorter when the length is not a multiple. A block size of zero gives no block.
pub open spec fn blocks_of(data: Seq<u8>, block_size: nat) -> Seq<Seq<u8>>
    decreases data.len(),
{
    if block_size == 0 || data.len() == 0 {
        Seq::empty()
    } else if data.len() <= block_size {
        seq![data]
    } else {
        seq![data.take(block_size as int)] + blocks_of(data.skip(block_size as int), block_size)
    }
}

/// The concatenation of the SHA-256 digests of `blocks`, in order.
pub open spec fn digest_list(blocks: Seq<Seq<u8>>) -> Seq<u8>
    decreases blocks.len(),
{
    if blocks.len() == 0 {
        Seq::empty()
    } else {
        digest_list(blocks.drop_last()) + sha256_digest(blocks.last())
    }
}

/// The Merkle digest of a regular file with contents `data`.
pub open spec fn file_digest(data: Seq<u8>, block_size: nat) -> Seq<u8> {
    sha256_digest(digest_list(blocks_of(data, block_size)))
}

/// The concatenation of the digests in `digests`, in order.
pub open spec fn concat_digests(digests: Seq<[u8; 32]>) -> Seq<u8>
    decreases digests.len(),
{
    if digests.len() == 0 {
        Seq::empty()
    } else {
        concat_digests(digests.drop_last()) + digests.last()@
    }
}

/// Law: the blocks of a file put back together are the file; with a positive
/// block size every block is non-empty and at most `block_size` long, and every
/// block but the last is exactly `block_size` long.
pub proof fn lemma_blocks_of(data: Seq<u8>, block_size: nat)
    requires
        block_size > 0,
    ensures
        blocks_of(data, block_size).flatten() == data,
        forall|i: int|
            0 <= i < blocks_of(data, block_size).len() ==> 0 < (#[trigger] blocks_of(
                data,
                block_size,
            )[i]).len() <= block_size,
        forall|i: int|
            0 <= i < blocks_of(data, block_size).len() - 1 ==> (#[trigger] blocks_of(
                data,
                block_size,
            )[i]).len() == block_size,
    decreases data.len(),
{
    let b = blocks_of(data, block_size);
    if data.len() == 0 {
        assert(b.flatten() =~= data);
    } else if data.len() <= block_size {
        seq![data].lemma_flatten_one_element();
    } else {
        let rest = data.skip(block_size as int);
        lemma_blocks_of(rest, block_size);
        let rb = blocks_of(rest, block_size);
        assert(b == seq![data.take(block_size as int)] + rb);
        vstd::seq_lib::lemma_flatten_concat(seq![data.take(block_size as int)], rb);
        seq![data.take(block_size as int)].lemma_flatten_one_element();
        assert(b.flatten() =~= data);
        assert forall|i: int| 0 <= i < b.len() implies 0 < (#[trigger] b[i]).len()
            <= block_size by {
            if i > 0 {
                assert(b[i] == rb[i - 1]);
            }
        }
        assert forall|i: int| 0 <= i < b.len() - 1 implies (#[trigger] b[i]).len()
            == block_size by {
            if i > 0 {
                assert(b[i] == rb[i - 1]);
            }
        }
    }
}

/// Law: full blocks followed by a short tail split back into those blocks and
/// that tail.
pub proof fn lemma_blocks_of_full_then_tail(full: Seq<Seq<u8>>, tail: Seq<u8>, block_size: nat)
    requires
        block_size > 0,
        forall|i: int| 0 <= i < full.len() ==> (#[trigger] full[i]).len() == block_size,
        tail.len() < block_size,
    ensures
        blocks_of(full.flatten() + tail, block_size) == if tail.len() == 0 {
            full
        } else {
            full.push(tail)
        },
    decreases full.len(),
{
    let x = full.flatten() + tail;
    if full.len() == 0 {
        assert(x =~= tail);
        assert(blocks_of(x, block_size) =~= if tail.len() == 0 {
            full
        } else {
            full.push(tail)
        });
    } else {
        let rest = full.drop_first();
        assert forall|i: int| 0 <= i < rest.len() implies (#[trigger] rest[i]).len()
            == block_size by {
            assert(rest[i] == full[i + 1]);
        }
        lemma_blocks_of_full_then_tail(rest, tail, block_size);
        let y = rest.flatten() + tail;
        assert(x =~= full[0] + y);
        if rest.len() == 0 && tail.len() == 0 {
            assert(y =~= Seq::<u8>::empty());
            assert(x =~= full[0]);
            assert(blocks_of(x, block_size) =~= full);
        } else {
            if rest.len() > 0 {
                assert(rest.flatten() == rest[0] + rest.drop_first().flatten());
            }
            assert(y.len() > 0);
            assert(x.take(block_size as int) =~= full[0]);
            assert(x.skip(block_size as int) =~= y);
            if tail.len() == 0 {
                assert(blocks_of(x, block_size) =~= full);
            } else {
                assert(blocks_of(x, block_size) =~= full.push(tail));
            }
        }
    }
}

/// The blocks of `data` number `data.len() / block_size`, plus one for a short tail.
proof fn lemma_blocks_of_len(data: Seq<u8>, block_size: nat)
    requires
        block_size > 0,
    ensures
        blocks_of(data, block_size).len() == data.len() / block_size + if data.len()
            % block_size == 0 {
            0int
        } else {
            1int
        },
    decreases data.len(),
{
    let n = data.len() as int;
    let b = block_size as int;
    if n == 0 {
        assert(n / b == 0 && n % b == 0) by (nonlinear_arith)
            requires
                n == 0,
                b > 0,
        ;
    } else if n <= b {
        if n == b {
            assert(n / b == 1 && n % b == 0) by (nonlinear_arith)
                requires
                    n == b,
                    b > 0,
            ;
        } else {
            assert(n / b == 0 && n % b == n) by (nonlinear_arith)
                requires
                    0 < n < b,
            ;
        }
    } else {
        lemma_blocks_of_len(data.skip(b), block_size);
        let m = n - b;
        assert(n / b == m / b + 1 && n % b == m % b) by (nonlinear_arith)
            requires
                m == n - b,
                m > 0,
                b > 0,
        {
            vstd::arithmetic::div_mod::lemma_fundamental_div_mod(m, b);
            vstd::arithmetic::div_mod::lemma_fundamental_div_mod_converse(
                n,
                b,
                m / b + 1,
                m % b,
            );
        }
    }
}

/// The digests of blocks computed one by one, put together, are the digest list
/// of those blocks.
proof fn lemma_concat_digests(digests: Seq<[u8; 32]>, blocks: Seq<Seq<u8>>)
    requires
        digests.len() == blocks.len(),
        forall|i: int| 0 <= i < blocks.len() ==> (#[trigger] digests[i])@ == sha256_digest(
            blocks[i],
        ),
    ensures
        concat_digests(digests) == digest_list(blocks),
    decreases digests.len(),
{
    if digests.len() > 0 {
        let d = digests.drop_last();
        let b = blocks.drop_last();
        assert forall|i: int| 0 <= i < b.len() implies (#[trigger] d[i])@ == sha256_digest(
            b[i],
        ) by {
            assert(d[i] == digests[i] && b[i] == blocks[i]);
        }
        lemma_concat_digests(d, b);
        assert(digests[digests.len() - 1]@ == sha256_digest(blocks[blocks.len() - 1]));
    }
}

/// The length of a concatenation of 32-byte digests.
proof fn lemma_concat_digests_len(digests: Seq<[u8; 32]>)
    ensures
        concat_digests(digests).len() == 32 * digests.len(),
    decreases digests.len(),
{
    if digests.len() > 0 {
        lemma_concat_digests_len(digests.drop_last());
    }
}

/// Law: block digests computed apart (by a pool of workers, say) and combined in
/// file order give the file's digest.
pub proof fn lemma_block_digests_give_file_digest(
    data: Seq<u8>,
    block_size: nat,
    digests: Seq<[u8; 32]>,
)
    requires
        digests.len() == blocks_of(data, block_size).len(),
        forall|i: int|
            0 <= i < digests.len() ==> (#[trigger] digests[i])@ == sha256_digest(
                blocks_of(data, block_size)[i],
            ),
    ensures
        sha256_digest(concat_digests(digests)) == file_digest(data, block_size),
{
    lemma_concat_digests(digests, blocks_of(data, block_size));
}

/// Law: blocks read one after the other, each non-empty and at most
/// `block_size` long, every one but the last full (as [`crate::blocks::BlockReader`]
/// yields them), are the blocks of the file they make up.
pub proof fn lemma_read_blocks_are_blocks_of(blocks: Seq<Seq<u8>>, block_size: nat)
    requires
        block_size > 0,
        forall|i: int| 0 <= i < blocks.len() ==> 0 < (#[trigger] blocks[i]).len() <= block_size,
        forall|i: int| 0 <= i < blocks.len() - 1 ==> (#[trigger] blocks[i]).len() == block_size,
    ensures
        blocks_of(blocks.flatten(), block_size) == blocks,
{
    if blocks.len() == 0 {
        lemma_blocks_of_full_then_tail(blocks, Seq::empty(), block_size);
        assert(blocks.flatten() + Seq::<u8>::empty() =~= blocks.flatten());
    } else {
        let last = blocks.last();
        if last.len() == block_size {
            assert forall|i: int| 0 <= i < blocks.len() implies (#[trigger] blocks[i]).len()
                == block_size by {}
            lemma_blocks_of_full_then_tail(blocks, Seq::empty(), block_size);
            assert(blocks.flatten() + Seq::<u8>::empty() =~= blocks.flatten());
        } else {
            let full = blocks.drop_last();
            assert forall|i: int| 0 <= i < full.len() implies (#[trigger] full[i]).len()
                == block_size by {
                assert(full[i] == blocks[i]);
            }
            lemma_blocks_of_full_then_tail(full, last, block_size);
            full.lemma_flatten_push(last);
            assert(full.push(last) =~= blocks);
        }
    }
}

/// Law: the digests of blocks read one after the other (each non-empty, at most
/// `block_size` long, all but the last full), hashed apart and combined in
/// order, give the digest of the file they make up; so hashing blocks on a pool
/// gives what hashing the file as a stream gives.
pub proof fn lemma_read_block_digests_give_file_digest(
    blocks: Seq<Seq<u8>>,
    block_size: nat,
    digests: Seq<[u8; 32]>,
)
    requires
        block_size > 0,
        forall|i: int| 0 <= i < blocks.len() ==> 0 < (#[trigger] blocks[i]).len() <= block_size,
        forall|i: int| 0 <= i < blocks.len() - 1 ==> (#[trigger] blocks[i]).len() == block_size,
        digests.len() == blocks.len(),
        forall|i: int| 0 <= i < digests.len() ==> (#[trigger] digests[i])@ == sha256_digest(blocks[i]),
    ensures
        sha256_digest(concat_digests(digests)) == file_digest(blocks.flatten(), block_size),
{
    lemma_read_blocks_are_blocks_of(blocks, block_size);
    lemma_concat_digests(digests, blocks);
}

/// Law: the digest list of some blocks is the SHA-256 digest of each block,
/// one after the other.
pub proof fn lemma_digest_list_is_block_digests(blocks: Seq<Seq<u8>>)
    ensures
        digest_list(blocks) == blocks.map_values(|b: Seq<u8>| sha256_digest(b)).flatten(),
    decreases blocks.len(),
{
    let m = blocks.map_values(|b: Seq<u8>| sha256_digest(b));
    if blocks.len() == 0 {
        assert(m =~= Seq::<Seq<u8>>::empty());
        assert(digest_list(blocks) =~= m.flatten());
    } else {
        let rest = blocks.drop_last();
        lemma_digest_list_is_block_digests(rest);
        let mr = rest.map_values(|b: Seq<u8>| sha256_digest(b));
        assert(m =~= mr.push(sha256_digest(blocks.last())));
        mr.lemma_flatten_push(sha256_digest(blocks.last()));
    }
}

/// Law: in the concatenation of digests, bytes `32 * i` to `32 * i + 32` are
/// digest `i`, and there is nothing else.
pub proof fn lemma_concat_digests_layout(digests: Seq<[u8; 32]>)
    ensures
        concat_digests(digests).len() == 32 * digests.len(),
        forall|i: int|
            0 <= i < digests.len() ==> #[trigger] concat_digests(digests).subrange(32 * i, 32 * i + 32)
                == digests[i]@,
    decreases digests.len(),
{
    if digests.len() > 0 {
        let rest = digests.drop_last();
        lemma_concat_digests_layout(rest);
        let c = concat_digests(digests);
        let cr = concat_digests(rest);
        assert(c == cr + digests.last()@);
        assert forall|i: int| 0 <= i < digests.len() implies #[trigger] c.subrange(32 * i, 32 * i + 32)
            == digests[i]@ by {
            if i < digests.len() - 1 {
                assert(cr.subrange(32 * i, 32 * i + 32) == rest[i]@);
                assert(c.subrange(32 * i, 32 * i + 32) =~= cr.subrange(32 * i, 32 * i + 32));
            } else {
                assert(c.subrange(32 * i, 32 * i + 32) =~= digests.last()@);
            }
        }
    }
}

/// Law: a file's digest is the SHA-256 digest of the SHA-256 digests of its
/// blocks, one after the other, whatever the number of blocks, one included.
pub proof fn lemma_file_digest_hashes_block_digests(data: Seq<u8>, block_size: nat)
    ensures
        file_digest(data, block_size) == sha256_digest(
            blocks_of(data, block_size).map_values(|b: Seq<u8>| sha256_digest(b)).flatten(),
        ),
{
    lemma_digest_list_is_block_digests(blocks_of(data, block_size));
}

/// The SHA-256 digest of one block, as a worker of the hash pool computes it.
pub fn hash_block(block: &[u8]) -> (digest: [u8; 32])
    requires
        block@.len() <= MAX_DIGEST_INPUT,
    ensures
        digest@ == sha256_digest(block@),
{
    let mut hasher = Sha256Hasher::new();
    hasher.input(block);
    assert(hasher.fed() =~= block@);
    finish_sha256(hasher)
}

/// Combines block digests, given in file order, into the file's digest.
pub fn hash_block_digests(digests: &Vec<[u8; 32]>) -> (digest: [u8; 32])
    requires
        32 * digests@.len() <= MAX_DIGEST_INPUT,
    ensures
        digest@ == sha256_digest(concat_digests(digests@)),
{
    let mut hasher = Sha256Hasher::new();
    let n = digests.len();
    for i in 0..n
        invariant
            n == digests@.len(),
            32 * n <= MAX_DIGEST_INPUT,
            hasher.fed() == concat_digests(digests@.take(i as int)),
    {
        proof {
            lemma_concat_digests_len(digests@.take(i as int));
            assert(digests@.take(i + 1).drop_last() =~= digests@.take(i as int));
        }
        hasher.input(digests[i].as_slice());
    }
    assert(digests@.take(n as int) =~= digests@);
    finish_sha256(hasher)
}

/// A file hashed as its bytes arrive, a read at a time.
///
/// Reads never cross a block boundary: a read brings at most [`FileHasher::room`]
/// bytes. A block that fills is hashed at once and its digest fed to the file's
/// engine; the last, short block is hashed when the hasher is finished.
pub struct FileHasher {
    block_size: usize,
    filled: usize,
    block: Sha256Hasher,
    file: Sha256Hasher,
    file_fed: u64,
    content: Ghost<Seq<u8>>,
    closed: Ghost<Seq<Seq<u8>>>,
}

impl View for FileHasher {
    type V = Seq<u8>;

    /// Every byte absorbed so far, in order.
    closed spec fn view(&self) -> Seq<u8> {
        self.content@
    }
}

impl FileHasher {
    /// The size of the blocks the file is split into.
    pub closed spec fn block_size(&self) -> nat {
        self.block_size as nat
    }

    /// The file's engine can take the digest of one more block.
    pub open spec fn can_close(&self) -> bool {
        self.block_size() > 0 && 32 * (self@.len() / self.block_size() + 1) <= MAX_DIGEST_INPUT
    }

    /// The bytes the next read may bring: what is left of the current block.
    pub open spec fn spec_room(&self) -> nat {
        if self.block_size() == 0 {
            0
        } else {
            (self.block_size() - self@.len() % self.block_size()) as nat
        }
    }

    /// The internal state agrees with what was absorbed.
    pub closed spec fn wf(&self) -> bool {
        &&& self.block_size <= MAX_DIGEST_INPUT
        &&& self.block_size == 0 ==> self.content@.len() == 0 && self.closed@.len() == 0
        &&& self.block_size > 0 ==> self.filled < self.block_size
        &&& self.filled == self.block.fed().len()
        &&& forall|i: int|
            0 <= i < self.closed@.len() ==> (#[trigger] self.closed@[i]).len() == self.block_size
        &&& self.content@ == self.closed@.flatten() + self.block.fed()
        &&& self.file.fed() == digest_list(self.closed@)
        &&& self.file_fed as int == 32 * self.closed@.len()
        &&& self.file.fed().len() == self.file_fed
        &&& self.file_fed <= MAX_DIGEST_INPUT
    }

    /// The number of bytes in closed blocks, and the length of the partial block,
    /// as they follow from the invariant.
    proof fn lemma_counts(&self)
        requires
            self.wf(),
            self.block_size > 0,
        ensures
            self.closed@.flatten().len() == self.closed@.len() * self.block_size,
            self@.len() / self.block_size() == self.closed@.len(),
            self@.len() % self.block_size() == self.filled,
    {
        lemma_flatten_len(self.closed@, self.block_size as nat);
        vstd::arithmetic::div_mod::lemma_fundamental_div_mod_converse(
            self@.len() as int,
            self.block_size as int,
            self.closed@.len() as int,
            self.filled as int,
        );
    }

    /// A hasher for a file split into blocks of `block_size` bytes, which has
    /// absorbed nothing yet.
    pub fn new(block_size: usize) -> (hasher: Self)
        requires
            block_size <= MAX_DIGEST_INPUT,
        ensures
            hasher.wf(),
            hasher@ == Seq::<u8>::empty(),
            hasher.block_size() == block_size,
    {
        let hasher = FileHasher {
            block_size,
            filled: 0,
            block: Sha256Hasher::new(),
            file: Sha256Hasher::new(),
            file_fed: 0,
            content: Ghost(Seq::empty()),
            closed: Ghost(Seq::empty()),
        };
        assert(hasher.closed@.flatten() =~= Seq::<u8>::empty());
        assert(hasher.content@ =~= hasher.closed@.flatten() + hasher.block.fed());
        hasher
    }

    /// The bytes the next read may bring: what is left of the current block
    /// (nothing when the block size is zero).
    pub fn room(&self) -> (room: usize)
        requires
            self.wf(),
        ensures
            room == self.spec_room(),
    {
        if self.block_size == 0 {
            0
        } else {
            proof {
                self.lemma_counts();
            }
            self.block_size - self.filled
        }
    }

    /// Whether the file's engine can take the digest of one more block.
    pub fn can_close_block(&self) -> (ok: bool)
        requires
            self.wf(),
        ensures
            ok == self.can_close(),
    {
        if self.block_size == 0 {
            false
        } else {
            proof {
                self.lemma_counts();
            }
            self.file_fed <= MAX_DIGEST_INPUT - 32
        }
    }

    /// Hashes the current block, feeds its digest to the file's engine and starts
    /// a new block.
    fn close_block(&mut self)
        requires
            old(self).file.fed() == digest_list(old(self).closed@),
            old(self).file.fed().len() == old(self).file_fed,
            old(self).file_fed + 32 <= MAX_DIGEST_INPUT,
        ensures
            final(self).file.fed().len() == final(self).file_fed,
            final(self).file.fed() == digest_list(old(self).closed@.push(old(self).block.fed())),
            final(self).closed@ == old(self).closed@.push(old(self).block.fed()),
            final(self).file_fed == old(self).file_fed + 32,
            final(self).block.fed() == Seq::<u8>::empty(),
            final(self).filled == 0,
            final(self).block_size == old(self).block_size,
            final(self).content@ == old(self).content@,
    {
        let mut full = Sha256Hasher::new();
        std::mem::swap(&mut full, &mut self.block);
        let ghost piece = full.fed();
        let digest = finish_sha256(full);
        self.file.input(digest.as_slice());
        self.file_fed = self.file_fed + 32;
        self.filled = 0;
        self.closed = Ghost(self.closed@.push(piece));
        assert(self.closed@.drop_last() =~= old(self).closed@);
    }

    /// Absorbs the bytes of one read. A block that fills is hashed at once.
    pub fn absorb(&mut self, chunk: &[u8])
        requires
            old(self).wf(),
            0 < chunk@.len() <= old(self).spec_room(),
            old(self)@.len() % old(self).block_size() + chunk@.len() == old(self).block_size()
                ==> old(self).can_close(),
        ensures
            final(self).wf(),
            final(self)@ == old(self)@ + chunk@,
            final(self).block_size() == old(self).block_size(),
    {
        proof {
            self.lemma_counts();
        }
        let ghost old_closed = self.closed@;
        self.block.input(chunk);
        self.filled = self.filled + chunk.len();
        self.content = Ghost(self.content@ + chunk@);
        assert(self.content@ =~= self.closed@.flatten() + self.block.fed());
        if self.filled == self.block_size {
            self.close_block();
            proof {
                old_closed.lemma_flatten_push(self.closed@.last());
                assert(self.content@ =~= self.closed@.flatten() + self.block.fed());
            }
        }
    }

    /// Finishes the file: hashes the last, short block if there is one, and
    /// returns the file's digest.
    pub fn finish(self) -> (digest: [u8; 32])
        requires
            self.wf(),
            self.block_size() > 0 && self@.len() % self.block_size() != 0 ==> self.can_close(),
        ensures
            digest@ == file_digest(self@, self.block_size()),
    {
        let mut this = self;
        if this.block_size == 0 {
            assert(this.closed@ =~= Seq::<Seq<u8>>::empty());
            assert(blocks_of(this@, 0) =~= this.closed@);
        } else {
            proof {
                this.lemma_counts();
                lemma_blocks_of_full_then_tail(this.closed@, this.block.fed(), this.block_size as nat);
            }
            if this.filled > 0 {
                this.close_block();
            }
        }
        finish_sha256(this.file)
    }
}

/// The length of the concatenation of blocks that all have the same length.
proof fn lemma_flatten_len(blocks: Seq<Seq<u8>>, block_size: nat)
    requires
        forall|i: int| 0 <= i < blocks.len() ==> (#[trigger] blocks[i]).len() == block_size,
    ensures
        blocks.flatten().len() == blocks.len() * block_size,
    decreases blocks.len(),
{
    if blocks.len() > 0 {
        let rest = blocks.drop_first();
        assert forall|i: int| 0 <= i < rest.len() implies (#[trigger] rest[i]).len()
            == block_size by {
            assert(rest[i] == blocks[i + 1]);
        }
        lemma_flatten_len(rest, block_size);
        assert(blocks.flatten() == blocks[0] + rest.flatten());
        assert(blocks[0].len() == block_size);
        let n = blocks.len() as int;
        let b = block_size as int;
        assert(n * b == (n - 1) * b + b) by (nonlinear_arith);
        assert(blocks.flatten().len() == blocks.len() * block_size);
    } else {
        let b = block_size as int;
        assert(0 * b == 0) by (nonlinear_arith);
    }
}

/// How many closed blocks a file of `len` bytes can have once a read of `take`
/// bytes at `offset` fills a block.
proof fn lemma_filled_block_count(offset: int, take: int, len: int, block_size: int)
    requires
        0 <= offset,
        offset + take <= len,
        block_size > 0,
        offset % block_size + take == block_size,
    ensures
        offset / block_size + 1 <= len / block_size,
{
    vstd::arithmetic::div_mod::lemma_fundamental_div_mod(offset, block_size);
    let q = offset / block_size;
    assert((q + 1) * block_size == q * block_size + block_size) by (nonlinear_arith);
    assert((q + 1) * block_size <= len);
    vstd::arithmetic::div_mod::lemma_div_is_ordered((q + 1) * block_size, len, block_size);
    vstd::arithmetic::div_mod::lemma_div_multiples_vanish(q + 1, block_size);
}

/// The digest of a regular file with contents `data`, split into blocks of
/// `block_size` bytes.
pub fn hash_file_contents(data: &[u8], block_size: usize) -> (digest: [u8; 32])
    requires
        block_size <= MAX_DIGEST_INPUT,
        32 * blocks_of(data@, block_size as nat).len() <= MAX_DIGEST_INPUT,
    ensures
        digest@ == file_digest(data@, block_size as nat),
{
    let mut hasher = FileHasher::new(block_size);
    let len = data.len();
    let mut offset: usize = 0;
    assert(data@.take(0) =~= Seq::<u8>::empty());
    while offset < len && hasher.room() > 0
        invariant
            hasher.wf(),
            hasher.block_size() == block_size,
            offset <= len,
            len == data@.len(),
            hasher@ == data@.take(offset as int),
            32 * blocks_of(data@, block_size as nat).len() <= MAX_DIGEST_INPUT,
        decreases len - offset,
    {
        let room = hasher.room();
        let take = if room < len - offset {
            room
        } else {
            len - offset
        };
        proof {
            let b = block_size as int;
            lemma_blocks_of_len(data@, block_size as nat);
            if (offset as int) % b + take == b {
                lemma_filled_block_count(offset as int, take as int, len as int, b);
            }
        }
        hasher.absorb(&data[offset..offset + take]);
        assert(data@.take(offset as int) + data@.subrange(offset as int, offset + take)
            =~= data@.take(offset + take));
        offset = offset + take;
    }
    proof {
        if block_size > 0 {
            lemma_blocks_of_len(data@, block_size as nat);
            assert(offset == len);
            assert(data@.take(len as int) =~= data@);
        } else {
            assert(blocks_of(data@, 0) =~= blocks_of(hasher@, 0));
        }
    }
    hasher.finish()
}

// ---------------------------------------------------------------------------
// Directories
// ---------------------------------------------------------------------------

/// What one entry contributes to its directory's digest: its name followed by
/// its digest, or its digest alone.
pub open spec fn entry_bytes(e: EntryView, with_names: bool) -> Seq<u8> {
    if with_names {
        e.0 + e.1
    } else {
        e.1
    }
}

/// What a list of entries contributes, in the order given.
pub open spec fn listing_bytes(s: Seq<EntryView>, with_names: bool) -> Seq<u8>
    decreases s.len(),
{
    if s.len() == 0 {
        Seq::empty()
    } else {
        listing_bytes(s.drop_last(), with_names) + entry_bytes(s.last(), with_names)
    }
}

/// The Merkle digest of a directory with entries `s`, listed in any order.
pub open spec fn directory_digest(s: Seq<EntryView>, with_names: bool) -> Seq<u8> {
    sha256_digest(listing_bytes(sort_by_name(s), with_names))
}

/// The contribution of two lists one after the other.
proof fn lemma_listing_bytes_concat(a: Seq<EntryView>, b: Seq<EntryView>, with_names: bool)
    ensures
        listing_bytes(a + b, with_names) == listing_bytes(a, with_names) + listing_bytes(
            b,
            with_names,
        ),
    decreases b.len(),
{
    if b.len() == 0 {
        assert(a + b =~= a);
        assert(listing_bytes(a, with_names) + listing_bytes(b, with_names) =~= listing_bytes(
            a,
            with_names,
        ));
    } else {
        lemma_listing_bytes_concat(a, b.drop_last(), with_names);
        assert((a + b).drop_last() =~= a + b.drop_last());
        assert((a + b).last() == b.last());
    }
}

/// Sorting does not change how many bytes a listing contributes.
proof fn lemma_listing_len_sorted(s: Seq<EntryView>, with_names: bool)
    ensures
        listing_bytes(sort_by_name(s), with_names).len() == listing_bytes(s, with_names).len(),
    decreases s.len(),
{
    if s.len() > 0 {
        let x = s.last();
        let t = sort_by_name(s.drop_last());
        lemma_listing_len_sorted(s.drop_last(), with_names);
        lemma_sort_by_name(s.drop_last());
        let p = crate::order::insert_index(t, x);
        crate::order::lemma_insert_index_bounds(t, x);
        assert(t.insert(p, x) =~= t.take(p) + seq![x] + t.skip(p));
        assert(t =~= t.take(p) + t.skip(p));
        lemma_listing_bytes_concat(t.take(p) + seq![x], t.skip(p), with_names);
        lemma_listing_bytes_concat(t.take(p), seq![x], with_names);
        lemma_listing_bytes_concat(t.take(p), t.skip(p), with_names);
        assert(seq![x].drop_last() =~= Seq::<EntryView>::empty());
        assert(listing_bytes(seq![x], with_names) == listing_bytes(
            Seq::<EntryView>::empty(),
            with_names,
        ) + entry_bytes(x, with_names));
        assert(sort_by_name(s) == t.insert(p, x));
        assert(listing_bytes(sort_by_name(s), with_names).len() == listing_bytes(t, with_names).len()
            + entry_bytes(x, with_names).len());
    }
}

/// Law: a listing contributes, for each entry in the order given, its name
/// followed by its digest, or its digest alone.
pub proof fn lemma_listing_bytes_layout(s: Seq<EntryView>, with_names: bool)
    ensures
        listing_bytes(s, with_names) == s.map_values(
            |e: EntryView|
                if with_names {
                    e.0 + e.1
                } else {
                    e.1
                },
        ).flatten(),
    decreases s.len(),
{
    let f = |e: EntryView|
        if with_names {
            e.0 + e.1
        } else {
            e.1
        };
    let m = s.map_values(f);
    if s.len() == 0 {
        assert(m =~= Seq::<Seq<u8>>::empty());
        assert(listing_bytes(s, with_names) =~= m.flatten());
    } else {
        let rest = s.drop_last();
        lemma_listing_bytes_layout(rest, with_names);
        let mr = rest.map_values(f);
        assert(m =~= mr.push(f(s.last())));
        mr.lemma_flatten_push(f(s.last()));
    }
}

/// Law: a directory's digest is the SHA-256 digest of its entries sorted by
/// name, each giving its name followed by its digest, or its digest alone.
pub proof fn lemma_directory_digest_layout(s: Seq<EntryView>, with_names: bool)
    ensures
        directory_digest(s, with_names) == sha256_digest(
            sort_by_name(s).map_values(
                |e: EntryView|
                    if with_names {
                        e.0 + e.1
                    } else {
                        e.1
                    },
            ).flatten(),
        ),
{
    lemma_listing_bytes_layout(sort_by_name(s), with_names);
}

/// Law: the digest of a directory does not depend on the order in which its
/// entries were listed.
pub proof fn lemma_directory_digest_ignores_listing_order(
    s1: Seq<EntryView>,
    s2: Seq<EntryView>,
    with_names: bool,
)
    requires
        s1.to_multiset() == s2.to_multiset(),
        distinct_names(s1),
        distinct_names(s2),
    ensures
        directory_digest(s1, with_names) == directory_digest(s2, with_names),
{
    lemma_sort_ignores_listing_order(s1, s2);
}

/// The digest of a directory from the digests of its entries, listed in any order.
pub fn hash_directory(children: &Vec<ChildDigest>, with_names: bool) -> (digest: [u8; 32])
    requires
        listing_bytes(entry_views(children@), with_names).len() <= MAX_DIGEST_INPUT,
    ensures
        digest@ == directory_digest(entry_views(children@), with_names),
{
    let sorted = sort_children(children);
    let ghost sv = entry_views(sorted@);
    proof {
        lemma_listing_len_sorted(entry_views(children@), with_names);
    }
    let mut hasher = Sha256Hasher::new();
    let n = sorted.len();
    assert(sv.take(0) =~= Seq::<EntryView>::empty());
    for i in 0..n
        invariant
            n == sorted@.len(),
            sv == entry_views(sorted@),
            listing_bytes(sv, with_names).len() <= MAX_DIGEST_INPUT,
            hasher.fed() == listing_bytes(sv.take(i as int), with_names),
    {
        proof {
            assert(sv.take(i + 1).drop_last() =~= sv.take(i as int));
            assert(sv.take(i + 1).last() == entry_view(sorted@[i as int]));
            assert(sv =~= sv.take(i + 1) + sv.skip(i + 1));
            lemma_listing_bytes_concat(sv.take(i + 1), sv.skip(i + 1), with_names);
        }
        if with_names {
            hasher.input(sorted[i].0.as_str().as_bytes());
        }
        hasher.input(sorted[i].1.as_slice());
        assert(hasher.fed() =~= listing_bytes(sv.take(i + 1), with_names));
    }
    assert(sv.take(n as int) =~= sv);
    finish_sha256(hasher)
}

// ---------------------------------------------------------------------------
// Trees
// ---------------------------------------------------------------------------

/// A directory tree read into memory: a regular file with its contents, or a
/// directory with its entries, each a name and a subtree.
pub enum Tree {
    File(Vec<u8>),
    Dir(Vec<(String, Tree)>),
}

/// The Merkle digest of a tree.
pub open spec fn tree_digest(t: Tree, block_size: nat, with_names: bool) -> Seq<u8>
    decreases t,
{
    match t {
        Tree::File(data) => file_digest(data@, block_size),
        Tree::Dir(children) => directory_digest(
            children_views(children@, block_size, with_names),
            with_names,
        ),
    }
}

/// The entries of a directory: each child's name encoded as UTF-8, and its digest.
pub open spec fn children_views(children: Seq<(String, Tree)>, block_size: nat, with_names: bool) -> Seq<
    EntryView,
>
    decreases children,
{
    if children.len() == 0 {
        Seq::empty()
    } else {
        children_views(children.drop_last(), block_size, with_names).push(
            (
                vstd::utf8::encode_utf8(children.last().0@),
                tree_digest(children.last().1, block_size, with_names),
            ),
        )
    }
}

/// The total length of the UTF-8 names of a directory's children.
pub open spec fn names_len(children: Seq<(String, Tree)>) -> nat
    decreases children.len(),
{
    if children.len() == 0 {
        0
    } else {
        names_len(children.drop_last()) + vstd::utf8::encode_utf8(children.last().0@).len()
    }
}

/// No engine in the tree's hash is given more than it can take: every file's
/// block digests, and every directory's names and digests, fit.
pub open spec fn tree_fits(t: Tree, block_size: nat, with_names: bool) -> bool
    decreases t,
{
    match t {
        Tree::File(data) => 32 * blocks_of(data@, block_size).len() <= MAX_DIGEST_INPUT,
        Tree::Dir(children) => {
            &&& (if with_names {
                names_len(children@)
            } else {
                0
            }) + 32 * children@.len() <= MAX_DIGEST_INPUT
            &&& children_fit(children@, block_size, with_names)
        },
    }
}

/// Every child subtree fits.
pub open spec fn children_fit(children: Seq<(String, Tree)>, block_size: nat, with_names: bool) -> bool
    decreases children,
{
    children.len() == 0 || (children_fit(children.drop_last(), block_size, with_names)
        && tree_fits(children.last().1, block_size, with_names))
}

/// Each child of a fitting list of children fits.
proof fn lemma_children_fit(children: Seq<(String, Tree)>, block_size: nat, with_names: bool, i: int)
    requires
        children_fit(children, block_size, with_names),
        0 <= i < children.len(),
    ensures
        tree_fits(children[i].1, block_size, with_names),
    decreases children.len(),
{
    if i < children.len() - 1 {
        lemma_children_fit(children.drop_last(), block_size, with_names, i);
        assert(children.drop_last()[i] == children[i]);
    }
}

/// The entries of the first `i + 1` children are those of the first `i`, and one more.
proof fn lemma_children_views_step(
    children: Seq<(String, Tree)>,
    block_size: nat,
    with_names: bool,
    i: int,
)
    requires
        0 <= i < children.len(),
    ensures
        children_views(children.take(i + 1), block_size, with_names) == children_views(
            children.take(i),
            block_size,
            with_names,
        ).push(
            (
                vstd::utf8::encode_utf8(children[i].0@),
                tree_digest(children[i].1, block_size, with_names),
            ),
        ),
        names_len(children.take(i + 1)) == names_len(children.take(i))
            + vstd::utf8::encode_utf8(children[i].0@).len(),
{
    assert(children.take(i + 1).drop_last() =~= children.take(i));
    assert(children.take(i + 1).last() == children[i]);
}

/// The digest of a tree held in memory: files by their blocks, directories by
/// their entries sorted by name.
pub fn hash_tree(tree: &Tree, block_size: usize, with_names: bool) -> (digest: [u8; 32])
    requires
        block_size <= MAX_DIGEST_INPUT,
        tree_fits(*tree, block_size as nat, with_names),
    ensures
        digest@ == tree_digest(*tree, block_size as nat, with_names),
    decreases tree,
{
    match tree {
        Tree::File(data) => hash_file_contents(data.as_slice(), block_size),
        Tree::Dir(children) => {
            let mut digests: Vec<ChildDigest> = Vec::new();
            let n = children.len();
            let ghost bs = block_size as nat;
            assert(children@.take(0) =~= Seq::<(String, Tree)>::empty());
            assert(entry_views(digests@) =~= Seq::<EntryView>::empty());
            for i in 0..n
                invariant
                    n == children@.len(),
                    *tree == Tree::Dir(*children),
                    block_size <= MAX_DIGEST_INPUT,
                    bs == block_size as nat,
                    children_fit(children@, bs, with_names),
                    entry_views(digests@) == children_views(children@.take(i as int), bs, with_names),
                    listing_bytes(entry_views(digests@), with_names).len() == (if with_names {
                        names_len(children@.take(i as int))
                    } else {
                        0
                    }) + 32 * i,
            {
                proof {
                    lemma_children_fit(children@, bs, with_names, i as int);
                    lemma_children_views_step(children@, bs, with_names, i as int);
                    assert(decreases_to!(*tree => (*tree)->Dir_0));
                    assert(decreases_to!(*children => children@));
                    assert(decreases_to!(children@ => children@[i as int]));
                    assert(decreases_to!(children@[i as int] => children@[i as int].1));
                }
                let d = hash_tree(&children[i].1, block_size, with_names);
                let e: ChildDigest = (children[i].0.clone(), d);
                let ghost before = digests@;
                digests.push(e);
                assert(entry_views(digests@) =~= entry_views(before).push(entry_view(e)));
                assert(entry_views(digests@).drop_last() =~= entry_views(before));
            }
            assert(children@.take(n as int) =~= children@);
            hash_directory(&digests, with_names)
        },
    }
}

/// The UTF-8 names of a directory's children are pairwise different.
pub open spec fn distinct_child_names(children: Seq<(String, Tree)>) -> bool {
    forall|i: int, j: int|
        0 <= i < children.len() && 0 <= j < children.len() && i != j
            ==> vstd::utf8::encode_utf8(#[trigger] children[i].0@) != vstd::utf8::encode_utf8(
            #[trigger] children[j].0@,
        )
}

/// Two trees with the same files and, at every level, the same names, each
/// directory's entries listed in any order.
pub open spec fn same_tree(t1: Tree, t2: Tree) -> bool
    decreases t1,
{
    match t1 {
        Tree::File(a) => match t2 {
            Tree::File(b) => a@ == b@,
            Tree::Dir(_) => false,
        },
        Tree::Dir(c1) => match t2 {
            Tree::File(_) => false,
            Tree::Dir(c2) => {
                &&& c1@.len() == c2@.len()
                &&& distinct_child_names(c1@)
                &&& distinct_child_names(c2@)
                &&& exists|p: Seq<int>|
                    #![trigger is_permutation(p, c1@.len())]
                    is_permutation(p, c1@.len()) && forall|i: int|
                        #![trigger c1@[i]]
                        0 <= i < c1@.len() ==> c1@[i].0@ == c2@[p[i]].0@ && same_tree(
                            c1@[i].1,
                            c2@[p[i]].1,
                        )
            },
        },
    }
}

/// Law: a directory has one entry for each child, in the same order: the
/// child's name encoded as UTF-8, and the child's digest.
pub proof fn lemma_children_views_index(children: Seq<(String, Tree)>, block_size: nat, with_names: bool)
    ensures
        children_views(children, block_size, with_names).len() == children.len(),
        forall|i: int|
            0 <= i < children.len() ==> #[trigger] children_views(children, block_size, with_names)[i]
                == (
                vstd::utf8::encode_utf8(children[i].0@),
                tree_digest(children[i].1, block_size, with_names),
            ),
    decreases children.len(),
{
    if children.len() > 0 {
        let rest = children.drop_last();
        lemma_children_views_index(rest, block_size, with_names);
        assert forall|i: int| 0 <= i < children.len() - 1 implies children[i] == rest[i] by {}
    }
}

/// Law: the digest of a tree depends only on its files' contents and on the
/// names at every level below it, not on the order in which any directory's
/// entries were listed.
pub proof fn lemma_tree_digest_ignores_listing_order(
    t1: Tree,
    t2: Tree,
    block_size: nat,
    with_names: bool,
)
    requires
        same_tree(t1, t2),
    ensures
        tree_digest(t1, block_size, with_names) == tree_digest(t2, block_size, with_names),
    decreases t1,
{
    match t1 {
        Tree::File(a) => {},
        Tree::Dir(c1) => match t2 {
            Tree::File(_) => {},
            Tree::Dir(c2) => {
                let n = c1@.len();
                let p = choose|p: Seq<int>|
                    #![trigger is_permutation(p, c1@.len())]
                    is_permutation(p, c1@.len()) && forall|i: int|
                        #![trigger c1@[i]]
                        0 <= i < c1@.len() ==> c1@[i].0@ == c2@[p[i]].0@ && same_tree(
                            c1@[i].1,
                            c2@[p[i]].1,
                        );
                let s1 = children_views(c1@, block_size, with_names);
                let s2 = children_views(c2@, block_size, with_names);
                lemma_children_views_index(c1@, block_size, with_names);
                lemma_children_views_index(c2@, block_size, with_names);
                assert forall|i: int| 0 <= i < s1.len() implies #[trigger] s1[i] == s2[p[i]] by {
                    assert(c1@[i].0@ == c2@[p[i]].0@);
                    assert(decreases_to!(t1 => t1->Dir_0));
                    assert(decreases_to!(c1 => c1@));
                    assert(decreases_to!(c1@ => c1@[i]));
                    assert(decreases_to!(c1@[i] => c1@[i].1));
                    lemma_tree_digest_ignores_listing_order(c1@[i].1, c2@[p[i]].1, block_size, with_names);
                }
                lemma_permuted_same_multiset(s1, s2, p);
                assert(distinct_names(s1));
                assert(distinct_names(s2));
                lemma_directory_digest_ignores_listing_order(s1, s2, with_names);
            },
        },
    }
}

/// Law: the digest of a file in a tree is the file's digest: the SHA-256 digest
/// of the SHA-256 digests of its blocks, one block included; the digest of a
/// directory is the SHA-256 digest of its children's entries, sorted by name.
pub proof fn lemma_tree_digest_layout(t: Tree, block_size: nat, with_names: bool)
    ensures
        t matches Tree::File(data) ==> tree_digest(t, block_size, with_names) == sha256_digest(
            blocks_of(data@, block_size).map_values(|b: Seq<u8>| sha256_digest(b)).flatten(),
        ),
        t matches Tree::Dir(children) ==> tree_digest(t, block_size, with_names) == sha256_digest(
            sort_by_name(children_views(children@, block_size, with_names)).map_values(
                |e: EntryView|
                    if with_names {
                        e.0 + e.1
                    } else {
                        e.1
                    },
            ).flatten(),
        ),
{
    match t {
        Tree::File(data) => {
            lemma_file_digest_hashes_block_digests(data@, block_size);
        },
        Tree::Dir(children) => {
            lemma_directory_digest_layout(children_views(children@, block_size, with_names), with_names);
        },
    }
}

} // verus!

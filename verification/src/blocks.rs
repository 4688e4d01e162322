//! Reading a file one block at a time.
//!
//! A block is filled by successive reads, each of which brings at most what is
//! left of the block. Reading goes on until a read brings nothing: either the
//! block is full, so there was no room to read into, or the file has ended. So
//! a block is short only at the end of the file, and a block that got no byte
//! at all means the file is exhausted.

use vstd::prelude::*;

verus! {

/// A block being filled by reads.
pub struct BlockReader {
    block_size: usize,
    block: Vec<u8>,
    done: bool,
    end_of_file: bool,
}

impl View for BlockReader {
    type V = Seq<u8>;

    /// The bytes read into the block so far.
    closed spec fn view(&self) -> Seq<u8> {
        self.block@
    }
}

impl BlockReader {
    /// The size of a full block.
    pub closed spec fn block_size(&self) -> nat {
        self.block_size as nat
    }

    /// A read has brought nothing: no more reads go into this block.
    pub closed spec fn is_done(&self) -> bool {
        self.done
    }

    /// A read into a block with room left brought nothing: the file has ended.
    pub closed spec fn at_end_of_file(&self) -> bool {
        self.end_of_file
    }

    /// The block never holds more than a full block; the file has ended only
    /// once reading is over, and reading ends short of a full block only there.
    pub closed spec fn wf(&self) -> bool {
        &&& self.block@.len() <= self.block_size
        &&& self.end_of_file ==> self.done
        &&& self.done && self.block@.len() < self.block_size ==> self.end_of_file
    }

    /// An empty block of `block_size` bytes, into which reading goes on.
    pub fn new(block_size: usize) -> (reader: Self)
        ensures
            reader.wf(),
            reader@ == Seq::<u8>::empty(),
            reader.block_size() == block_size,
            !reader.is_done(),
            !reader.at_end_of_file(),
    {
        BlockReader { block_size, block: Vec::new(), done: false, end_of_file: false }
    }

    /// How many bytes the next read may bring.
    pub fn room(&self) -> (room: usize)
        requires
            self.wf(),
        ensures
            room == self.block_size() - self@.len(),
    {
        self.block_size - self.block.len()
    }

    /// Takes the bytes one read brought, and says whether to read again: a read
    /// that brings bytes is kept and reading goes on; a read that brings nothing
    /// ends the block, and marks the end of the file if the block had room left.
    pub fn fill(&mut self, data: &[u8]) -> (read_again: bool)
        requires
            old(self).wf(),
            !old(self).is_done(),
            old(self)@.len() + data@.len() <= old(self).block_size(),
        ensures
            final(self).wf(),
            final(self)@ == old(self)@ + data@,
            final(self).block_size() == old(self).block_size(),
            read_again == (data@.len() > 0),
            final(self).is_done() == !read_again,
            final(self).at_end_of_file() == (data@.len() == 0 && old(self)@.len()
                < old(self).block_size()),
    {
        let n = data.len();
        if n == 0 {
            self.done = true;
            self.end_of_file = self.block.len() < self.block_size;
            assert(self.block@ =~= old(self).block@ + data@);
            return false;
        }
        for i in 0..n
            invariant
                n == data@.len(),
                self.block_size == old(self).block_size,
                self.done == old(self).done,
                self.end_of_file == old(self).end_of_file,
                self.block@ == old(self).block@ + data@.take(i as int),
                old(self).block@.len() + n <= self.block_size,
        {
            self.block.push(data[i]);
            assert(data@.take(i + 1) =~= data@.take(i as int).push(data@[i as int]));
        }
        assert(data@.take(n as int) =~= data@);
        true
    }

    /// The block read, or nothing when no byte was read: the file is exhausted.
    /// Once reading is over, a block shorter than a full one comes only at the
    /// end of the file.
    pub fn finish(self) -> (block: Option<Vec<u8>>)
        requires
            self.wf(),
        ensures
            match block {
                Some(b) => {
                    &&& b@ == self@
                    &&& 0 < b@.len() <= self.block_size()
                    &&& self.is_done() && b@.len() < self.block_size() ==> self.at_end_of_file()
                },
                None => self@.len() == 0,
            },
    {
        if self.block.len() == 0 {
            None
        } else {
            Some(self.block)
        }
    }
}

} // verus!

//! Walking the blocks of a file from the last one to the first.

use crate::chain::{block_count, block_len, lemma_last_block};
use vstd::prelude::*;

verus! {

/// A cursor over the blocks of a file of a known size, from the tail of the
/// file to its head. It holds no data: each step names the bytes to read.
#[derive(Debug)]
pub struct FileRevIter {
    filesize: u64,
    offset: u64,
    block_size: usize,
}

impl FileRevIter {
    /// The blocks not yet produced are those before `offset`; all of them are
    /// full unless nothing was produced yet.
    #[verifier::type_invariant]
    spec fn well_formed(self) -> bool {
        &&& 0 < self.block_size
        &&& self.offset <= self.filesize
        &&& self.offset == self.filesize || self.offset % (self.block_size as u64) == 0
    }

    /// Size in bytes of the file that is walked.
    pub closed spec fn filesize(self) -> nat {
        self.filesize as nat
    }

    /// Size in bytes of a full block.
    pub closed spec fn block_size(self) -> nat {
        self.block_size as nat
    }

    /// Number of blocks that have not been produced yet.
    pub closed spec fn remaining(self) -> nat {
        block_count(self.offset as nat, self.block_size as nat)
    }

    /// A cursor behind the last block of a file of `filesize` bytes.
    pub fn new(filesize: u64, block_size: usize) -> (blocks: Self)
        requires
            0 < block_size,
        ensures
            blocks.filesize() == filesize,
            blocks.block_size() == block_size,
            blocks.remaining() == block_count(filesize as nat, block_size as nat),
    {
        FileRevIter { filesize, offset: filesize, block_size }
    }

    /// Steps back by one block and gives the offset at which it starts and
    /// its length, or `None` once the head of the file is reached.
    pub fn next(&mut self) -> (span: Option<(u64, usize)>)
        ensures
            final(self).filesize() == old(self).filesize(),
            final(self).block_size() == old(self).block_size(),
            old(self).remaining() == 0 ==> span is None && final(self).remaining() == 0,
            old(self).remaining() > 0 ==> ({
                let index = (old(self).remaining() - 1) as nat;
                &&& final(self).remaining() == index
                &&& span matches Some((start, len)) && start == index * old(self).block_size()
                    && len == block_len(old(self).filesize(), old(self).block_size(), index)
            }),
            span matches Some((start, len)) ==> 1 <= len <= old(self).block_size() && start + len
                <= old(self).filesize(),
    {
        proof {
            use_type_invariant(&*self);
        }
        if self.offset == 0 {
            return None;
        }
        let tail = self.offset % (self.block_size as u64);
        let len: usize = if tail == 0 {
            self.block_size
        } else {
            tail as usize
        };
        proof {
            lemma_last_block(self.offset as nat, self.block_size as nat);
        }
        let start = self.offset - (len as u64);
        proof {
            let index = (self.remaining() - 1) as nat;
            assert(start == index * self.block_size);
            assert(len == block_len(self.offset as nat, self.block_size as nat, index));
            lemma_block_boundary(self.block_size as nat, index);
        }
        self.offset = start;
        Some((start, len))
    }
}

/// Block `index` starts on a multiple of the block size and ends, if it is
/// full, where the next block starts.
proof fn lemma_block_boundary(block_size: nat, index: nat)
    requires
        0 < block_size,
    ensures
        (index + 1) * block_size == index * block_size + block_size,
        index * block_size % block_size == 0,
{
    vstd::arithmetic::mul::lemma_mul_is_distributive_add_other_way(
        block_size as int,
        index as int,
        1,
    );
    vstd::arithmetic::div_mod::lemma_mod_multiples_basic(index as int, block_size as int);
}

} // verus!

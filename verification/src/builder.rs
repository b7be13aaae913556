//! Building the hash chain of a file from its last block to its first.

use crate::bytes::append_bytes;
use crate::chain::{
    block, block_count, block_digest, chain_digests, lemma_block_bounds, root_digest,
};
use crate::digest::{sha256, sha256_digest, Digest};
use crate::reader::FileRevIter;
use vstd::prelude::*;
use vstd::slice::slice_subrange;

verus! {

/// The digest of a block that is taken up after the blocks whose digests are
/// in `hashes`: the block is hashed alone if it is the first one taken up,
/// else followed by the digest that was made last.
pub open spec fn linked_digest(block: Seq<u8>, hashes: Seq<Digest>) -> Digest {
    if hashes.len() == 0 {
        sha256(block)
    } else {
        sha256(block + hashes.last()@)
    }
}

/// Takes `block` up into the chain: appends its digest to `hashes`.
pub fn extend_chain(hashes: &mut Vec<Digest>, block: &[u8])
    ensures
        final(hashes)@ == old(hashes)@.push(linked_digest(block@, old(hashes)@)),
{
    let digest = if hashes.len() == 0 {
        sha256_digest(block)
    } else {
        let mut buf: Vec<u8> = Vec::new();
        append_bytes(&mut buf, block);
        let last: &Digest = &hashes[hashes.len() - 1];
        append_bytes(&mut buf, last.as_slice());
        assert(buf@ =~= block@ + hashes@.last()@);
        sha256_digest(buf.as_slice())
    };
    hashes.push(digest);
}

/// The digest that was made last, if any was made.
pub open spec fn last_digest(hashes: Seq<Digest>) -> Option<Digest> {
    if hashes.len() == 0 {
        None
    } else {
        Some(hashes.last())
    }
}

/// The root digest in a list made by `compute_hashes`: its last entry. The
/// list of an empty file has none.
pub fn root_of(hashes: &Vec<Digest>) -> (root: Option<Digest>)
    ensures
        root == last_digest(hashes@),
{
    if hashes.len() == 0 {
        None
    } else {
        Some(hashes[hashes.len() - 1])
    }
}

/// Computes the digests of all blocks of `data`, the last block first: the
/// digest of the last block is the first entry, the root digest the last one.
/// An empty file gives an empty list.
pub fn compute_hashes(data: &[u8], block_size: usize) -> (hashes: Vec<Digest>)
    requires
        0 < block_size,
    ensures
        hashes@ == chain_digests(data@, block_size as nat),
        last_digest(hashes@) == root_digest(data@, block_size as nat),
{
    let ghost count = block_count(data@.len(), block_size as nat);
    let mut blocks = FileRevIter::new(data.len() as u64, block_size);
    let mut hashes: Vec<Digest> = Vec::new();
    loop
        invariant
            0 < block_size,
            data@.len() == data.len(),
            count == block_count(data@.len(), block_size as nat),
            blocks.filesize() == data@.len(),
            blocks.block_size() == block_size,
            hashes@.len() + blocks.remaining() == count,
            forall|j: int|
                0 <= j < hashes@.len() ==> #[trigger] hashes@[j] == block_digest(
                    data@,
                    block_size as nat,
                    (count - 1 - j) as nat,
                ),
        decreases blocks.remaining(),
    {
        let ghost index = (blocks.remaining() - 1) as nat;
        match blocks.next() {
            None => {
                assert(hashes@ =~= chain_digests(data@, block_size as nat));
                proof {
                    lemma_chain_root(data@, block_size as nat);
                }
                return hashes;
            },
            Some((start, len)) => {
                proof {
                    lemma_block_bounds(data@.len(), block_size as nat, index);
                }
                let chunk = slice_subrange(data, start as usize, start as usize + len);
                let ghost before = hashes@;
                extend_chain(&mut hashes, chunk);
                proof {
                    assert(chunk@ == block(data@, block_size as nat, index));
                    lemma_block_digest(data@, block_size as nat, index);
                    if before.len() > 0 {
                        assert(before.last() == block_digest(
                            data@,
                            block_size as nat,
                            index + 1,
                        ));
                    }
                    assert(hashes@.last() == block_digest(data@, block_size as nat, index));
                }
            },
        }
    }
}

/// The chain of a file ends in its root digest, and the chain of an empty
/// file is empty.
pub proof fn lemma_chain_root(data: Seq<u8>, block_size: nat)
    requires
        0 < block_size,
    ensures
        chain_digests(data, block_size).len() == block_count(data.len(), block_size),
        last_digest(chain_digests(data, block_size)) == root_digest(data, block_size),
{
    if data.len() > 0 {
        assert(0 * block_size == 0) by (nonlinear_arith);
        assert(data.skip(0) =~= data);
    }
}

/// The digest of a block in terms of the block and the digest of the next:
/// the last block is hashed alone, every other one followed by the digest of
/// the block after it.
pub proof fn lemma_block_digest(data: Seq<u8>, block_size: nat, index: nat)
    requires
        0 < block_size,
        index < block_count(data.len(), block_size),
    ensures
        block_digest(data, block_size, index) == if index + 1 == block_count(
            data.len(),
            block_size,
        ) {
            sha256(block(data, block_size, index))
        } else {
            sha256(
                block(data, block_size, index) + block_digest(data, block_size, index + 1)@,
            )
        },
{
    lemma_block_bounds(data.len(), block_size, index);
    let rest = data.skip((index * block_size) as int);
    assert((index + 1) * block_size == index * block_size + block_size) by (nonlinear_arith);
    if index + 1 == block_count(data.len(), block_size) {
        assert(rest =~= block(data, block_size, index));
    } else {
        assert(rest.take(block_size as int) =~= block(data, block_size, index));
        assert(rest.skip(block_size as int) =~= data.skip(((index + 1) * block_size) as int));
    }
}

} // verus!

//! The hash chain over the blocks of a file and the layout of its signed
//! copy, stated over sequences of bytes.

use crate::digest::{sha256, Digest, DIGEST_SIZE};
use vstd::arithmetic::div_mod::{lemma_fundamental_div_mod, lemma_fundamental_div_mod_converse};
use vstd::arithmetic::mul::{lemma_mul_inequality, lemma_mul_is_distributive_add_other_way};
use vstd::prelude::*;

verus! {

/// Whether `block_size` can be used: a block holds at least one byte, and a
/// block followed by a digest can still be counted.
pub open spec fn valid_block_size(block_size: usize) -> bool {
    0 < block_size && block_size + DIGEST_SIZE <= usize::MAX
}

/// Number of blocks that a file of `len` bytes is cut into. Every block is
/// full but possibly the last; an empty file has no block.
pub open spec fn block_count(len: nat, block_size: nat) -> nat {
    if len == 0 || block_size == 0 {
        0
    } else {
        ((len - 1) / (block_size as int) + 1) as nat
    }
}

/// Number of bytes in block `index` of a file of `len` bytes; 0 past the end.
pub open spec fn block_len(len: nat, block_size: nat, index: nat) -> nat {
    if (index + 1) * block_size <= len {
        block_size
    } else if index * block_size < len {
        (len - index * block_size) as nat
    } else {
        0
    }
}

/// Block `index` of `data`, counted from the head of the file.
pub open spec fn block(data: Seq<u8>, block_size: nat, index: nat) -> Seq<u8> {
    data.subrange(
        (index * block_size) as int,
        (index * block_size + block_len(data.len(), block_size, index)) as int,
    )
}

/// The digest that commits to all of `data`: the digest of its only block,
/// or of its first block followed by the digest that commits to the rest.
pub open spec fn chain_digest(data: Seq<u8>, block_size: nat) -> Digest
    decreases data.len(),
{
    if block_size == 0 || data.len() <= block_size {
        sha256(data)
    } else {
        sha256(
            data.take(block_size as int) + chain_digest(data.skip(block_size as int), block_size)@,
        )
    }
}

/// The digest of block `index`: it commits to that block and to every block
/// after it.
pub open spec fn block_digest(data: Seq<u8>, block_size: nat, index: nat) -> Digest {
    chain_digest(data.skip((index * block_size) as int), block_size)
}

/// The digests of all blocks in the order in which the chain is built: the
/// digest of the last block first, the root last.
pub open spec fn chain_digests(data: Seq<u8>, block_size: nat) -> Seq<Digest> {
    let count = block_count(data.len(), block_size);
    Seq::new(count, |j: int| block_digest(data, block_size, (count - 1 - j) as nat))
}

/// The root digest of `data`: the digest of its first block. An empty file
/// has none.
pub open spec fn root_digest(data: Seq<u8>, block_size: nat) -> Option<Digest> {
    if data.len() == 0 {
        None
    } else {
        Some(chain_digest(data, block_size))
    }
}

/// The signed copy of `data`: every block but the last is followed by the
/// digest of the block after it.
pub open spec fn augmented(data: Seq<u8>, block_size: nat) -> Seq<u8>
    decreases data.len(),
{
    if block_size == 0 || data.len() <= block_size {
        data
    } else {
        data.take(block_size as int) + chain_digest(data.skip(block_size as int), block_size)@
            + augmented(data.skip(block_size as int), block_size)
    }
}

/// `data` with the digests of `hashes` laid between its blocks. `hashes` is
/// in the order of `chain_digests`: its last entry belongs to the first block
/// and is left out, the one before it follows the first block, and so on.
pub open spec fn interleaved(data: Seq<u8>, hashes: Seq<Digest>, block_size: nat) -> Seq<u8>
    decreases hashes.len(),
{
    if hashes.len() <= 1 {
        data
    } else {
        data.take(block_size as int) + hashes[hashes.len() - 2]@ + interleaved(
            data.skip(block_size as int),
            hashes.drop_last(),
            block_size,
        )
    }
}

/// Where the blocks of a file lie: every block starts inside the file and
/// holds between one and `block_size` bytes, every block but the last is full,
/// and the last one ends where the file ends.
pub proof fn lemma_block_bounds(len: nat, block_size: nat, index: nat)
    requires
        0 < block_size,
        index < block_count(len, block_size),
    ensures
        index * block_size < len,
        1 <= block_len(len, block_size, index) <= block_size,
        index * block_size + block_len(len, block_size, index) <= len,
        index + 1 < block_count(len, block_size) ==> (index + 1) * block_size < len,
        index + 1 == block_count(len, block_size) ==> index * block_size + block_len(
            len,
            block_size,
            index,
        ) == len,
{
    let b = block_size as int;
    let q = (len - 1) / b;
    lemma_fundamental_div_mod(len - 1, b);
    assert(len - 1 == b * q + (len - 1) % b);
    lemma_mul_is_distributive_add_other_way(b, index as int, 1);
    assert((index + 1) * b == index * b + b);
    lemma_mul_inequality(index as int, q, b);
    assert(index * b <= q * b);
    assert(q * b == b * q) by (nonlinear_arith);
    if index + 1 <= q {
        lemma_mul_inequality(index as int + 1, q, b);
    }
}

/// The number of blocks left once the last block of a file of `len` bytes is
/// taken away, and where that block starts.
pub proof fn lemma_last_block(len: nat, block_size: nat)
    requires
        0 < block_size,
        0 < len,
    ensures
        ({
            let last = (block_count(len, block_size) - 1) as nat;
            &&& block_count(len, block_size) >= 1
            &&& block_len(len, block_size, last) == if len % block_size == 0 {
                block_size
            } else {
                len % block_size
            }
            &&& last * block_size + block_len(len, block_size, last) == len
            &&& block_count(last * block_size, block_size) == last
        }),
{
    let b = block_size as int;
    let last = (block_count(len, block_size) - 1) as nat;
    lemma_block_bounds(len, block_size, last);
    let tail = block_len(len, block_size, last) as int;
    assert(len == last * b + tail);
    if tail == b {
        lemma_mul_is_distributive_add_other_way(b, last as int, 1);
        lemma_fundamental_div_mod_converse(len as int, b, last as int + 1, 0);
    } else {
        lemma_fundamental_div_mod_converse(len as int, b, last as int, tail);
    }
    if last > 0 {
        lemma_mul_is_distributive_add_other_way(b, last - 1, 1);
        assert(last * b - 1 == (last - 1) * b + (b - 1));
        lemma_fundamental_div_mod_converse(last * b - 1, b, last - 1, b - 1);
    } else {
        assert(last * b == 0) by (nonlinear_arith)
            requires
                last == 0,
        ;
    }
}

/// A file that fits into one block, and is not empty, is one block.
pub proof fn lemma_one_block(len: nat, block_size: nat)
    requires
        0 < len <= block_size,
    ensures
        block_count(len, block_size) == 1,
{
    lemma_fundamental_div_mod_converse(len - 1, block_size as int, 0, len - 1);
}

/// A file that is longer than a block has one block more than what follows
/// its first block.
pub proof fn lemma_block_count_step(len: nat, block_size: nat)
    requires
        0 < block_size < len,
    ensures
        block_count((len - block_size) as nat, block_size) + 1 == block_count(len, block_size),
{
    let b = block_size as int;
    let q = (len - b - 1) / b;
    let r = (len - b - 1) % b;
    lemma_fundamental_div_mod(len - b - 1, b);
    assert(len - 1 == (q + 1) * b + r) by (nonlinear_arith)
        requires
            len - b - 1 == b * q + r,
    ;
    lemma_fundamental_div_mod_converse(len - 1, b, q + 1, r);
}

} // verus!

//! Writing the signed copy of a file: its blocks with the digests of the
//! chain laid between them.

use crate::bytes::append_bytes;
use crate::chain::{
    augmented, block_count, block_digest, chain_digests, interleaved, lemma_block_bounds,
    lemma_block_count_step, lemma_one_block,
};
use crate::digest::Digest;
use vstd::prelude::*;
use vstd::slice::slice_subrange;

verus! {

/// Why a file could not be signed.
#[derive(Clone, Copy, Debug, PartialEq, Eq)]
pub enum SignError {
    /// The list of digests does not hold one digest for each block of the
    /// file: it was not made from this file.
    DigestCountMismatch,
}

/// The bytes that follow block `index` in the signed copy: the digest of the
/// block after it, which `hashes` holds counted from its end, or nothing
/// after the last block.
pub open spec fn trailing_digest(hashes: Seq<Digest>, index: nat) -> Seq<u8> {
    if index + 1 < hashes.len() {
        hashes[hashes.len() - 2 - index]@
    } else {
        Seq::empty()
    }
}

/// The part of the signed copy that belongs to block `index`: the block and
/// the digest that follows it, if one does.
pub fn sign_block(block: &[u8], hashes: &Vec<Digest>, index: usize) -> (out: Vec<u8>)
    ensures
        out@ == block@ + trailing_digest(hashes@, index as nat),
{
    let mut out: Vec<u8> = Vec::new();
    append_bytes(&mut out, block);
    if hashes.len() >= 2 && index <= hashes.len() - 2 {
        let digest: &Digest = &hashes[hashes.len() - 2 - index];
        append_bytes(&mut out, digest.as_slice());
    } else {
        assert(out@ =~= block@ + Seq::<u8>::empty());
    }
    out
}

/// Writes the signed copy of `data` with the digests of `hashes`, which must
/// hold one digest for each block. With the list that `compute_hashes` made
/// of `data`, the result is the signed copy of `data`.
pub fn sign(data: &[u8], hashes: &Vec<Digest>, block_size: usize) -> (result: Result<
    Vec<u8>,
    SignError,
>)
    requires
        0 < block_size,
    ensures
        result is Ok <==> hashes@.len() == block_count(data@.len(), block_size as nat),
        result matches Ok(out) ==> out@ == interleaved(data@, hashes@, block_size as nat),
        result matches Err(e) ==> e == SignError::DigestCountMismatch,
        hashes@ == chain_digests(data@, block_size as nat) ==> (result matches Ok(out) && out@
            == augmented(data@, block_size as nat)),
{
    let count = if data.len() == 0 {
        0
    } else {
        (data.len() - 1) / block_size + 1
    };
    if hashes.len() != count {
        return Err(SignError::DigestCountMismatch);
    }
    let mut out: Vec<u8> = Vec::new();
    let mut index: usize = 0;
    let mut pos: usize = 0;
    proof {
        assert(data@.skip(0) =~= data@);
        assert(hashes@.take(count as int) =~= hashes@);
        assert(out@ + interleaved(data@, hashes@, block_size as nat) =~= interleaved(
            data@,
            hashes@,
            block_size as nat,
        ));
    }
    while index < count
        invariant
            0 < block_size,
            data@.len() == data.len(),
            count == block_count(data@.len(), block_size as nat),
            count == hashes@.len(),
            index <= count,
            pos == if index == count {
                data@.len() as int
            } else {
                index * block_size
            },
            interleaved(data@, hashes@, block_size as nat) == out@ + interleaved(
                data@.skip(pos as int),
                hashes@.take(count - index),
                block_size as nat,
            ),
        decreases count - index,
    {
        proof {
            lemma_block_bounds(data@.len(), block_size as nat, index as nat);
        }
        let end = if data.len() - pos <= block_size {
            data.len()
        } else {
            pos + block_size
        };
        let block = slice_subrange(data, pos, end);
        let part = sign_block(block, hashes, index);
        let ghost before = out@;
        append_bytes(&mut out, part.as_slice());
        proof {
            let rest = data@.skip(pos as int);
            let left = hashes@.take(count - index);
            assert((index + 1) * block_size == index * block_size + block_size)
                by (nonlinear_arith);
            if index + 1 < count {
                assert(block@ =~= rest.take(block_size as int));
                assert(rest.skip(block_size as int) =~= data@.skip(end as int));
                assert(left.drop_last() =~= hashes@.take(count - index - 1));
                assert(left[left.len() - 2] == hashes@[count - 2 - index]);
                assert(before + (rest.take(block_size as int) + left[left.len() - 2]@
                    + interleaved(
                    rest.skip(block_size as int),
                    left.drop_last(),
                    block_size as nat,
                )) =~= out@ + interleaved(
                    data@.skip(end as int),
                    hashes@.take(count - index - 1),
                    block_size as nat,
                ));
            } else {
                assert(block@ =~= rest);
                assert(data@.skip(end as int) =~= Seq::<u8>::empty());
                assert(interleaved(
                    data@.skip(end as int),
                    hashes@.take(count - index - 1),
                    block_size as nat,
                ) =~= Seq::<u8>::empty());
                assert(before + rest =~= out@ + Seq::<u8>::empty());
            }
        }
        pos = end;
        index += 1;
    }
    proof {
        assert(interleaved(data@.skip(pos as int), hashes@.take(0), block_size as nat)
            =~= Seq::<u8>::empty());
        assert(out@ + Seq::<u8>::empty() =~= out@);
        if hashes@ == chain_digests(data@, block_size as nat) {
            lemma_interleaved_chain(data@, block_size as nat);
        }
    }
    Ok(out)
}

/// Laying the digests of the chain of `data` between its blocks gives the
/// signed copy of `data`.
pub proof fn lemma_interleaved_chain(data: Seq<u8>, block_size: nat)
    requires
        0 < block_size,
    ensures
        interleaved(data, chain_digests(data, block_size), block_size) == augmented(
            data,
            block_size,
        ),
    decreases data.len(),
{
    let hashes = chain_digests(data, block_size);
    let count = block_count(data.len(), block_size);
    if data.len() <= block_size {
        if data.len() > 0 {
            lemma_one_block(data.len(), block_size);
        }
    } else {
        let rest = data.skip(block_size as int);
        lemma_block_count_step(data.len(), block_size);
        lemma_interleaved_chain(rest, block_size);
        assert(data.skip((1 * block_size) as int) =~= rest) by {
            assert(1 * block_size == block_size) by (nonlinear_arith);
        }
        assert(hashes[count - 2] == block_digest(data, block_size, 1));
        assert(hashes.drop_last() =~= chain_digests(rest, block_size)) by {
            assert forall|j: int| 0 <= j < count - 1 implies hashes[j] == chain_digests(
                rest,
                block_size,
            )[j] by {
                let i = (count - 2 - j) as nat;
                assert((i + 1) * block_size == i * block_size + block_size) by (nonlinear_arith);
                assert(0 <= i * block_size) by (nonlinear_arith);
                lemma_block_bounds(data.len(), block_size, i + 1);
                assert(rest.skip((i * block_size) as int) =~= data.skip(
                    ((i + 1) * block_size) as int,
                ));
            }
        }
    }
}

} // verus!

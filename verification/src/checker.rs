//! Checking a signed file against its root digest, chunk by chunk, and
//! recovering the file on the way.

use crate::bytes::append_bytes;
use crate::chain::valid_block_size;
use crate::digest::{same_digest, sha256, sha256_digest, Digest, DIGEST_SIZE};
use vstd::prelude::*;
use vstd::slice::slice_subrange;

verus! {

/// What the verifier decides on one chunk of a signed file.
#[derive(Clone, Copy, Debug, PartialEq, Eq)]
pub enum Verdict {
    /// The chunk is empty or does not hash to the expected digest: the file
    /// is not authentic and nothing of the chunk may be kept.
    Rejected,
    /// The chunk is authentic and is the last one: all of it is content.
    Final,
    /// The chunk is authentic and another follows: its first `block_size`
    /// bytes are content, and the next chunk must hash to the digest given
    /// here, which is the rest of this chunk.
    Continue(Digest),
}

/// The chunk at the head of `augmented`: its first `block_size + DIGEST_SIZE`
/// bytes, or all of it if it is no longer than that.
pub open spec fn first_chunk(augmented: Seq<u8>, block_size: nat) -> Seq<u8> {
    if augmented.len() <= block_size + DIGEST_SIZE {
        augmented
    } else {
        augmented.take((block_size + DIGEST_SIZE) as int)
    }
}

/// Chunk `index` of `augmented`, for an index at which it has not ended.
pub open spec fn chunk(augmented: Seq<u8>, block_size: nat, index: nat) -> Seq<u8> {
    first_chunk(augmented.skip((index * (block_size + DIGEST_SIZE)) as int), block_size)
}

/// The outcome of verifying `augmented` against `expected`: whether it is
/// authentic, and the content that is handed out before the verifier stops.
///
/// The input is taken chunk by chunk. An empty chunk, or one that does not
/// hash to the expected digest, ends the run with a failure. A short chunk
/// that matches ends it with success and is content as a whole. A full chunk
/// that matches gives its first `block_size` bytes as content and its last
/// `DIGEST_SIZE` bytes as the digest expected of the next chunk.
pub open spec fn verification(augmented: Seq<u8>, expected: Seq<u8>, block_size: nat) -> (
    bool,
    Seq<u8>,
)
    decreases augmented.len(),
{
    let chunk = first_chunk(augmented, block_size);
    if chunk.len() == 0 || sha256(chunk)@ != expected {
        (false, Seq::empty())
    } else if chunk.len() < block_size + DIGEST_SIZE {
        (true, chunk)
    } else {
        let rest = verification(
            augmented.skip((block_size + DIGEST_SIZE) as int),
            chunk.skip(block_size as int),
            block_size,
        );
        (rest.0, chunk.take(block_size as int) + rest.1)
    }
}

/// Judges one chunk of a signed file against the digest expected of it.
pub fn check_chunk(expected: &Digest, chunk: &[u8], block_size: usize) -> (verdict: Verdict)
    requires
        valid_block_size(block_size),
        chunk@.len() <= block_size + DIGEST_SIZE,
    ensures
        match verdict {
            Verdict::Rejected => chunk@.len() == 0 || sha256(chunk@)@ != expected@,
            Verdict::Final => {
                &&& chunk@.len() > 0
                &&& sha256(chunk@)@ == expected@
                &&& chunk@.len() < block_size + DIGEST_SIZE
            },
            Verdict::Continue(next) => {
                &&& sha256(chunk@)@ == expected@
                &&& chunk@.len() == block_size + DIGEST_SIZE
                &&& next@ == chunk@.skip(block_size as int)
            },
        },
{
    if chunk.len() == 0 {
        return Verdict::Rejected;
    }
    let found = sha256_digest(chunk);
    if !same_digest(&found, expected) {
        return Verdict::Rejected;
    }
    if chunk.len() != block_size + DIGEST_SIZE {
        return Verdict::Final;
    }
    let mut next: Digest = [0u8; 32];
    let mut i: usize = 0;
    while i < DIGEST_SIZE
        invariant
            i <= DIGEST_SIZE,
            valid_block_size(block_size),
            chunk@.len() == block_size + DIGEST_SIZE,
            forall|k: int| 0 <= k < i ==> next@[k] == chunk@[block_size + k],
        decreases DIGEST_SIZE - i,
    {
        next[i] = chunk[block_size + i];
        i += 1;
    }
    assert(next@ =~= chunk@.skip(block_size as int));
    Verdict::Continue(next)
}

/// Verifies the signed file `augmented` against `root` and recovers the
/// content. The content handed out before a failure is returned with it.
pub fn verify(augmented: &[u8], root: &Digest, block_size: usize) -> (result: (bool, Vec<u8>))
    requires
        valid_block_size(block_size),
    ensures
        (result.0, result.1@) == verification(augmented@, root@, block_size as nat),
{
    let chunk_size = block_size + DIGEST_SIZE;
    let mut expected: Digest = *root;
    let mut content: Vec<u8> = Vec::new();
    let mut pos: usize = 0;
    proof {
        let whole = verification(augmented@, root@, block_size as nat);
        assert(augmented@.skip(0) =~= augmented@);
        assert(content@ + whole.1 =~= whole.1);
    }
    loop
        invariant
            valid_block_size(block_size),
            chunk_size == block_size + DIGEST_SIZE,
            pos <= augmented@.len(),
            verification(augmented@, root@, block_size as nat) == ({
                let rest = verification(augmented@.skip(pos as int), expected@, block_size as nat);
                (rest.0, content@ + rest.1)
            }),
        decreases augmented@.len() - pos,
    {
        let end = if augmented.len() - pos <= chunk_size {
            augmented.len()
        } else {
            pos + chunk_size
        };
        let chunk = slice_subrange(augmented, pos, end);
        let ghost left = augmented@.skip(pos as int);
        assert(chunk@ =~= first_chunk(left, block_size as nat));
        match check_chunk(&expected, chunk, block_size) {
            Verdict::Rejected => {
                assert(content@ + Seq::<u8>::empty() =~= content@);
                return (false, content);
            },
            Verdict::Final => {
                append_bytes(&mut content, chunk);
                return (true, content);
            },
            Verdict::Continue(next) => {
                let ghost before = content@;
                append_bytes(&mut content, slice_subrange(chunk, 0, block_size));
                proof {
                    let rest = verification(
                        left.skip(chunk_size as int),
                        chunk@.skip(block_size as int),
                        block_size as nat,
                    );
                    assert(left.skip(chunk_size as int) =~= augmented@.skip(end as int));
                    assert(before + (chunk@.take(block_size as int) + rest.1) =~= content@
                        + rest.1);
                }
                expected = next;
                pos = end;
            },
        }
    }
}

} // verus!

//! What signing and verifying guarantee together.

use crate::chain::{
    augmented, block, block_count, block_digest, block_len, chain_digest, chain_digests,
    lemma_block_bounds, lemma_block_count_step, lemma_one_block, root_digest,
};
use crate::checker::{chunk, first_chunk, verification};
use crate::digest::{sha256, Digest, DIGEST_SIZE};
use vstd::prelude::*;

verus! {

/// Whether `x` and `y` are two different inputs with one digest.
pub open spec fn is_collision(x: Seq<u8>, y: Seq<u8>) -> bool {
    x != y && sha256(x) == sha256(y)
}

/// The index of the chunk of a signed file that holds the byte at `pos`.
pub open spec fn chunk_index(pos: nat, block_size: nat) -> nat {
    pos / (block_size + DIGEST_SIZE as nat)
}

/// The signed copy of `content` with the digest that follows block `index`
/// replaced by `forged`.
pub open spec fn with_digest_after(
    content: Seq<u8>,
    block_size: nat,
    index: nat,
    forged: Digest,
) -> Seq<u8> {
    let signed = augmented(content, block_size);
    let at = index * (block_size + DIGEST_SIZE) + block_size;
    signed.take(at as int) + forged@ + signed.skip((at + DIGEST_SIZE) as int)
}

/// The signed copy of a file is longer than the file by one digest for every
/// block but the last.
pub proof fn lemma_augmented_len(content: Seq<u8>, block_size: nat)
    requires
        0 < block_size,
    ensures
        augmented(content, block_size).len() == if content.len() == 0 {
            0
        } else {
            content.len() + DIGEST_SIZE * (block_count(content.len(), block_size) - 1)
        },
    decreases content.len(),
{
    if content.len() > block_size {
        lemma_augmented_len(content.skip(block_size as int), block_size);
        lemma_block_count_step(content.len(), block_size);
    } else if content.len() > 0 {
        lemma_one_block(content.len(), block_size);
    }
}

/// Signing and then verifying against the root gives the file back: the
/// signed copy of a file that is not empty is authentic under the root digest
/// of the file, and the content recovered from it is the file.
pub proof fn lemma_round_trip(content: Seq<u8>, block_size: nat)
    requires
        0 < block_size,
        content.len() > 0,
    ensures
        verification(
            augmented(content, block_size),
            root_digest(content, block_size).unwrap()@,
            block_size,
        ) == (true, content),
    decreases content.len(),
{
    lemma_signed_head(content, block_size);
    if content.len() > block_size {
        let rest = content.skip(block_size as int);
        let head = content.take(block_size as int) + chain_digest(rest, block_size)@;
        lemma_round_trip(rest, block_size);
        assert(head.skip(block_size as int) =~= chain_digest(rest, block_size)@);
        assert(head.take(block_size as int) =~= content.take(block_size as int));
        assert(content.take(block_size as int) + rest =~= content);
    }
}

/// A signed copy is authentic under no root but its own: verifying it
/// against any other digest fails on the first chunk, before any content is
/// handed out.
pub proof fn lemma_wrong_root_rejected(content: Seq<u8>, block_size: nat, other: Digest)
    requires
        0 < block_size,
        root_digest(content, block_size) != Some(other),
    ensures
        verification(augmented(content, block_size), other@, block_size) == (
            false,
            Seq::<u8>::empty(),
        ),
{
    if content.len() > 0 {
        lemma_signed_head(content, block_size);
        lemma_same_bytes(chain_digest(content, block_size), other);
    }
}

/// A changed byte is caught at the chunk that holds it: when one byte of the
/// signed copy of a file is replaced by another value, verification against
/// the root of the file fails at the chunk of that byte, and the content
/// handed out is that of the blocks before it. The one exception is a change
/// that leaves the digest of the chunk as it was.
pub proof fn lemma_tamper_rejected(content: Seq<u8>, block_size: nat, pos: nat, value: u8)
    requires
        0 < block_size,
        pos < augmented(content, block_size).len(),
        value != augmented(content, block_size)[pos as int],
        !is_collision(
            chunk(
                augmented(content, block_size).update(pos as int, value),
                block_size,
                chunk_index(pos, block_size),
            ),
            chunk(augmented(content, block_size), block_size, chunk_index(pos, block_size)),
        ),
    ensures
        verification(
            augmented(content, block_size).update(pos as int, value),
            root_digest(content, block_size).unwrap()@,
            block_size,
        ) == (
            false,
            content.take((chunk_index(pos, block_size) * block_size) as int),
        ),
{
    let size = block_size + DIGEST_SIZE as nat;
    let signed = augmented(content, block_size);
    let tampered = signed.update(pos as int, value);
    let index = chunk_index(pos, block_size);
    let count = block_count(content.len(), block_size);
    lemma_augmented_len(content, block_size);
    vstd::arithmetic::div_mod::lemma_fundamental_div_mod(pos as int, size as int);
    assert(index * size <= pos < index * size + size) by (nonlinear_arith)
        requires
            pos == size * index + pos % size,
            0 <= pos % size < size,
    ;
    assert(index < count) by {
        if index >= count {
            assert(count * size <= index * size) by (nonlinear_arith)
                requires
                    count <= index,
                    0 < size,
            ;
            assert(count * size == count * block_size + DIGEST_SIZE * count)
                by (nonlinear_arith)
                requires
                    size == block_size + DIGEST_SIZE,
            ;
            lemma_block_bounds(content.len(), block_size, (count - 1) as nat);
            assert(count * block_size == (count - 1) * block_size + block_size)
                by (nonlinear_arith);
        }
    }
    lemma_signed_tail(content, block_size, index);
    assert(tampered.take((index * size) as int) =~= signed.take((index * size) as int));
    lemma_authentic_prefix(content, block_size, tampered, index);
    let changed = chunk(tampered, block_size, index);
    let original = chunk(signed, block_size, index);
    assert(changed != original) by {
        let at = pos - index * size;
        assert(tampered.skip((index * size) as int)[at] == value);
        assert(signed.skip((index * size) as int)[at] == signed[pos as int]);
        assert(changed[at] == value);
        assert(original[at] == signed[pos as int]);
    }
    lemma_block_bounds(content.len(), block_size, index);
    lemma_signed_head(content.skip((index * block_size) as int), block_size);
    lemma_same_bytes(sha256(changed), block_digest(content, block_size, index));
    assert(content.take((index * block_size) as int) + Seq::<u8>::empty() =~= content.take(
        (index * block_size) as int,
    ));
}

/// A forged digest is caught no later than at the block it speaks of: when
/// the digest that follows block `index` in the signed copy of a file is
/// replaced by another one, verification against the root of the file fails.
/// It fails at the chunk that holds the forged digest, having handed out the
/// blocks before `index`, unless that chunk kept its own digest through the
/// change; even then it fails at the next chunk, having handed out block
/// `index` as well.
pub proof fn lemma_forged_digest_rejected(
    content: Seq<u8>,
    block_size: nat,
    index: nat,
    forged: Digest,
)
    requires
        0 < block_size,
        index + 1 < block_count(content.len(), block_size),
        forged != block_digest(content, block_size, index + 1),
    ensures
        ({
            let forgery = with_digest_after(content, block_size, index, forged);
            let outcome = verification(
                forgery,
                root_digest(content, block_size).unwrap()@,
                block_size,
            );
            &&& !outcome.0
            &&& outcome.1 == content.take((index * block_size) as int) || outcome.1
                == content.take(((index + 1) * block_size) as int)
            &&& !is_collision(
                chunk(forgery, block_size, index),
                chunk(augmented(content, block_size), block_size, index),
            ) ==> outcome.1 == content.take((index * block_size) as int)
        }),
{
    let size = block_size + DIGEST_SIZE;
    let signed = augmented(content, block_size);
    let forgery = with_digest_after(content, block_size, index, forged);
    let start = index * size;
    let suffix = content.skip((index * block_size) as int);
    let next_suffix = content.skip(((index + 1) * block_size) as int);
    assert((index + 1) * size == index * size + size) by (nonlinear_arith);
    assert((index + 1) * block_size == index * block_size + block_size) by (nonlinear_arith);
    assert(0 <= index * size && 0 <= index * block_size) by (nonlinear_arith)
        requires
            0 <= index,
            0 <= size,
            0 <= block_size,
    ;
    lemma_block_bounds(content.len(), block_size, index);
    lemma_block_bounds(content.len(), block_size, index + 1);
    lemma_signed_tail(content, block_size, index);
    lemma_signed_tail(content, block_size, index + 1);
    lemma_signed_head(suffix, block_size);
    lemma_signed_head(next_suffix, block_size);
    assert(suffix.skip(block_size as int) =~= next_suffix);
    assert(forgery.take(start as int) =~= signed.take(start as int));
    lemma_authentic_prefix(content, block_size, forgery, index);

    let original = chunk(signed, block_size, index);
    let changed = chunk(forgery, block_size, index);
    let kept = suffix.take(block_size as int);
    assert(original == kept + block_digest(content, block_size, index + 1)@);
    assert(changed =~= kept + forged@) by {
        let at = start + block_size;
        assert(forgery == signed.take(at as int) + forged@ + signed.skip((at + DIGEST_SIZE) as int));
        assert(forgery.len() == signed.len());
        let window = forgery.skip(start as int);
        assert(window.len() > size);
        assert(signed.skip(start as int).take(size as int) == original);
        assert forall|i: int| 0 <= i < size implies #[trigger] window[i] == (kept + forged@)[i] by {
            if i < block_size {
                assert(window[i] == signed[start + i]);
                assert(original[i] == signed.skip(start as int)[i]);
            } else {
                assert(window[i] == forged@[i - block_size]);
            }
        }
        assert(window.take(size as int) =~= kept + forged@);
    }
    assert(changed != original) by {
        lemma_same_bytes(forged, block_digest(content, block_size, index + 1));
        assert(changed.skip(block_size as int) =~= forged@);
        assert(original.skip(block_size as int) =~= block_digest(
            content,
            block_size,
            index + 1,
        )@);
    }
    lemma_same_bytes(sha256(changed), block_digest(content, block_size, index));
    let before = content.take((index * block_size) as int);
    assert(before + Seq::<u8>::empty() =~= before);
    if sha256(changed) == sha256(original) {
        let after = forgery.skip(start as int).skip(size as int);
        assert(after =~= signed.skip(((index + 1) * size) as int));
        assert(changed.skip(block_size as int) =~= forged@);
        assert(changed.take(block_size as int) =~= kept);
        lemma_same_bytes(block_digest(content, block_size, index + 1), forged);
        assert(verification(after, forged@, block_size) == (false, Seq::<u8>::empty()));
        assert(before + (kept + Seq::<u8>::empty()) =~= content.take(
            ((index + 1) * block_size) as int,
        ));
    }
}

/// A file whose length is a multiple of the block size is cut into full
/// blocks alone, as many as the block size goes into its length: no block is
/// short and none is empty.
pub proof fn lemma_exact_multiple(len: nat, block_size: nat)
    requires
        0 < block_size,
        len % block_size == 0,
    ensures
        block_count(len, block_size) == len / block_size,
        forall|index: nat|
            index < len / block_size ==> #[trigger] block_len(len, block_size, index)
                == block_size,
{
    let count = len / block_size;
    vstd::arithmetic::div_mod::lemma_fundamental_div_mod(len as int, block_size as int);
    assert(len == count * block_size) by (nonlinear_arith)
        requires
            len == block_size * count + len % block_size,
            len % block_size == 0,
    ;
    if len > 0 {
        assert(len - 1 == (count - 1) * block_size + (block_size - 1)) by (nonlinear_arith)
            requires
                len == count * block_size,
        ;
        vstd::arithmetic::div_mod::lemma_fundamental_div_mod_converse(
            len - 1,
            block_size as int,
            count - 1,
            block_size - 1,
        );
    }
    assert forall|index: nat| index < count implies #[trigger] block_len(len, block_size, index)
        == block_size by {
        assert((index + 1) * block_size <= count * block_size) by (nonlinear_arith)
            requires
                index + 1 <= count,
                0 < block_size,
        ;
    }
}

/// A file shorter than a block, and not empty, is one block: its only digest
/// is the digest of the file and is the root, and its signed copy is the file
/// itself.
pub proof fn lemma_single_block(content: Seq<u8>, block_size: nat)
    requires
        0 < content.len() < block_size,
    ensures
        block_count(content.len(), block_size) == 1,
        block(content, block_size, 0) == content,
        chain_digests(content, block_size) == seq![sha256(content)],
        root_digest(content, block_size) == Some(sha256(content)),
        augmented(content, block_size) == content,
{
    lemma_one_block(content.len(), block_size);
    assert(0 * block_size == 0) by (nonlinear_arith);
    assert(1 * block_size == block_size) by (nonlinear_arith);
    assert(block(content, block_size, 0) =~= content);
    assert(content.skip(0) =~= content);
    assert(chain_digests(content, block_size) =~= seq![sha256(content)]);
}

/// Digests with the same bytes are the same digest.
proof fn lemma_same_bytes(a: Digest, b: Digest)
    ensures
        a@ == b@ <==> a == b,
{
    if a@ == b@ {
        assert(a =~= b);
    }
}

/// The head of a signed copy: its first chunk hashes to the root. If the
/// file is one block, the signed copy is the file. If not, the first chunk is
/// the first block with the digest of the rest of the file, and what follows
/// it is the signed copy of the rest of the file.
proof fn lemma_signed_head(content: Seq<u8>, block_size: nat)
    requires
        0 < block_size,
        content.len() > 0,
    ensures
        ({
            let signed = augmented(content, block_size);
            let size = block_size + DIGEST_SIZE;
            let rest = content.skip(block_size as int);
            &&& sha256(first_chunk(signed, block_size)) == chain_digest(content, block_size)
            &&& content.len() <= block_size ==> signed == content
            &&& content.len() > block_size ==> {
                &&& signed.len() > size
                &&& first_chunk(signed, block_size) == content.take(block_size as int)
                    + chain_digest(rest, block_size)@
                &&& signed.skip(size as int) == augmented(rest, block_size)
            }
        }),
{
    if content.len() > block_size {
        let signed = augmented(content, block_size);
        let size = block_size + DIGEST_SIZE;
        let rest = content.skip(block_size as int);
        let head = content.take(block_size as int) + chain_digest(rest, block_size)@;
        lemma_augmented_len(rest, block_size);
        assert(signed == head + augmented(rest, block_size));
        assert(signed.take(size as int) =~= head);
        assert(signed.skip(size as int) =~= augmented(rest, block_size));
    }
}

/// The tail of a signed copy: what follows its first `index` chunks is the
/// signed copy of what follows the first `index` blocks of the file.
proof fn lemma_signed_tail(content: Seq<u8>, block_size: nat, index: nat)
    requires
        0 < block_size,
        index < block_count(content.len(), block_size),
    ensures
        index * (block_size + DIGEST_SIZE) < augmented(content, block_size).len(),
        augmented(content, block_size).skip((index * (block_size + DIGEST_SIZE)) as int)
            == augmented(content.skip((index * block_size) as int), block_size),
    decreases index,
{
    let size = block_size + DIGEST_SIZE;
    let signed = augmented(content, block_size);
    if index == 0 {
        assert(0 * size == 0 && 0 * block_size == 0) by (nonlinear_arith);
        assert(signed.skip(0) =~= signed);
        assert(content.skip(0) =~= content);
        lemma_augmented_len(content, block_size);
    } else {
        let rest = content.skip(block_size as int);
        let before = (index - 1) as nat;
        if content.len() <= block_size {
            lemma_one_block(content.len(), block_size);
        }
        lemma_block_count_step(content.len(), block_size);
        lemma_signed_head(content, block_size);
        lemma_signed_tail(rest, block_size, before);
        lemma_block_bounds(rest.len(), block_size, before);
        assert(index * size == before * size + size) by (nonlinear_arith)
            requires
                index == before + 1,
        ;
        assert(index * block_size == before * block_size + block_size) by (nonlinear_arith)
            requires
                index == before + 1,
        ;
        assert(0 <= before * size && 0 <= before * block_size) by (nonlinear_arith)
            requires
                0 <= before,
                0 <= size,
                0 <= block_size,
        ;
        assert(signed.skip((index * size) as int) =~= signed.skip(size as int).skip(
            (before * size) as int,
        ));
        assert(rest.skip((before * block_size) as int) =~= content.skip(
            (index * block_size) as int,
        ));
    }
}

/// A file that begins like the signed copy of `content` is authentic as far
/// as it does: if it holds the first `index` chunks of the signed copy, its
/// verification hands out the first `index` blocks of `content` and goes on
/// to verify the rest against the digest of block `index`.
proof fn lemma_authentic_prefix(content: Seq<u8>, block_size: nat, input: Seq<u8>, index: nat)
    requires
        0 < block_size,
        index < block_count(content.len(), block_size),
        index * (block_size + DIGEST_SIZE) <= input.len(),
        input.take((index * (block_size + DIGEST_SIZE)) as int) == augmented(
            content,
            block_size,
        ).take((index * (block_size + DIGEST_SIZE)) as int),
    ensures
        ({
            let rest = verification(
                input.skip((index * (block_size + DIGEST_SIZE)) as int),
                block_digest(content, block_size, index)@,
                block_size,
            );
            verification(input, chain_digest(content, block_size)@, block_size) == (
                rest.0,
                content.take((index * block_size) as int) + rest.1,
            )
        }),
    decreases index,
{
    let size = block_size + DIGEST_SIZE;
    let signed = augmented(content, block_size);
    if index == 0 {
        assert(0 * size == 0 && 0 * block_size == 0) by (nonlinear_arith);
        assert(input.skip(0) =~= input);
        assert(content.skip(0) =~= content);
        let rest = verification(input, chain_digest(content, block_size)@, block_size);
        assert(content.take(0) + rest.1 =~= rest.1);
    } else {
        let tail = content.skip(block_size as int);
        let before = (index - 1) as nat;
        if content.len() <= block_size {
            lemma_one_block(content.len(), block_size);
        }
        lemma_block_count_step(content.len(), block_size);
        lemma_signed_head(content, block_size);
        lemma_signed_tail(content, block_size, index);
        lemma_block_bounds(content.len(), block_size, index);
        assert(index * size == before * size + size) by (nonlinear_arith)
            requires
                index == before + 1,
        ;
        assert(index * block_size == before * block_size + block_size) by (nonlinear_arith)
            requires
                index == before + 1,
        ;
        assert(0 <= before * size && 0 <= before * block_size) by (nonlinear_arith)
            requires
                0 <= before,
                0 <= size,
                0 <= block_size,
        ;
        let head = content.take(block_size as int) + chain_digest(tail, block_size)@;
        assert(first_chunk(input, block_size) =~= head) by {
            assert(input.take(size as int) =~= input.take((index * size) as int).take(
                size as int,
            ));
            assert(signed.take(size as int) =~= signed.take((index * size) as int).take(
                size as int,
            ));
            if input.len() <= size {
                assert(input.take(size as int) =~= input);
            }
        }
        let next = input.skip(size as int);
        assert(next.take((before * size) as int) =~= augmented(tail, block_size).take(
            (before * size) as int,
        )) by {
            assert(next.take((before * size) as int) =~= input.take((index * size) as int).skip(
                size as int,
            ));
            assert(signed.skip(size as int).take((before * size) as int) =~= signed.take(
                (index * size) as int,
            ).skip(size as int));
        }
        lemma_authentic_prefix(tail, block_size, next, before);
        assert(next.skip((before * size) as int) =~= input.skip((index * size) as int));
        assert(tail.skip((before * block_size) as int) =~= content.skip(
            (index * block_size) as int,
        ));
        assert(head.skip(block_size as int) =~= chain_digest(tail, block_size)@);
        assert(head.take(block_size as int) =~= content.take(block_size as int));
        let rest = verification(
            input.skip((index * size) as int),
            block_digest(content, block_size, index)@,
            block_size,
        );
        assert(content.take(block_size as int) + (tail.take((before * block_size) as int)
            + rest.1) =~= content.take((index * block_size) as int) + rest.1);
    }
}

} // verus!

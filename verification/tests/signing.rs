use file_auth::builder::compute_hashes;
use file_auth::digest::Digest;
use file_auth::signer::{sign, sign_block, SignError};

fn pattern(len: usize) -> Vec<u8> {
    (0..len).map(|i| ((i * 7 + 3) % 256) as u8).collect()
}

#[test]
fn signed_copy_of_three_small_blocks() {
    let data = b"abcdefghij";
    let hashes = compute_hashes(data, 4);
    let signed = sign(data, &hashes, 4).unwrap();
    let expected = hex::decode(
        "61626364b471442a95b5a8c651122230928649c3a2dae74ee1844ac141f21e0b453a042b\
         65666768c9df9c3f2963b19b9b95f58c4d33b053fa9f8586dd6ee04126e52a868f882108696a",
    )
    .unwrap();
    assert_eq!(signed, expected);
}

#[test]
fn example_of_2500_bytes_is_2564_bytes_signed() {
    let data = pattern(2500);
    let hashes = compute_hashes(&data, 1024);
    let signed = sign(&data, &hashes, 1024).unwrap();
    assert_eq!(signed.len(), 2564);
    assert_eq!(signed[..1024], data[..1024]);
    assert_eq!(signed[1024..1056], hashes[1]);
    assert_eq!(signed[1056..2080], data[1024..2048]);
    assert_eq!(signed[2080..2112], hashes[0]);
    assert_eq!(signed[2112..], data[2048..]);
}

#[test]
fn exact_multiple_ends_with_a_full_block() {
    let data = pattern(2048);
    let hashes = compute_hashes(&data, 1024);
    let signed = sign(&data, &hashes, 1024).unwrap();
    assert_eq!(signed.len(), 2048 + 32);
    assert_eq!(signed[..1024], data[..1024]);
    assert_eq!(signed[1024..1056], hashes[0]);
    assert_eq!(signed[1056..], data[1024..]);
}

#[test]
fn file_shorter_than_a_block_is_signed_unchanged() {
    let data = pattern(500);
    let hashes = compute_hashes(&data, 1024);
    assert_eq!(hashes.len(), 1);
    assert_eq!(sign(&data, &hashes, 1024), Ok(data.clone()));
}

#[test]
fn file_of_one_full_block_is_signed_unchanged() {
    let data = pattern(1024);
    let hashes = compute_hashes(&data, 1024);
    assert_eq!(sign(&data, &hashes, 1024), Ok(data.clone()));
}

#[test]
fn empty_file_is_signed_as_an_empty_file() {
    let hashes = compute_hashes(b"", 1024);
    assert_eq!(sign(b"", &hashes, 1024), Ok(Vec::new()));
}

#[test]
fn signed_length_adds_a_digest_for_every_block_but_the_last() {
    for len in 1usize..60 {
        for block_size in 1usize..9 {
            let data = pattern(len);
            let hashes = compute_hashes(&data, block_size);
            let signed = sign(&data, &hashes, block_size).unwrap();
            assert_eq!(signed.len(), len + 32 * (hashes.len() - 1));
        }
    }
}

#[test]
fn too_few_digests_are_refused() {
    let data = pattern(10);
    let mut hashes = compute_hashes(&data, 4);
    hashes.pop();
    assert_eq!(sign(&data, &hashes, 4), Err(SignError::DigestCountMismatch));
}

#[test]
fn too_many_digests_are_refused() {
    let data = pattern(10);
    let mut hashes = compute_hashes(&data, 4);
    hashes.push([0u8; 32]);
    assert_eq!(sign(&data, &hashes, 4), Err(SignError::DigestCountMismatch));
}

#[test]
fn digests_for_an_empty_file_are_refused() {
    let hashes: Vec<Digest> = vec![[7u8; 32]];
    assert_eq!(sign(b"", &hashes, 4), Err(SignError::DigestCountMismatch));
}

#[test]
fn digests_of_another_block_size_are_refused() {
    let data = pattern(10);
    let hashes = compute_hashes(&data, 4);
    assert_eq!(sign(&data, &hashes, 2), Err(SignError::DigestCountMismatch));
}

#[test]
fn any_digests_of_the_right_count_are_laid_between_the_blocks() {
    let hashes: Vec<Digest> = vec![[1u8; 32], [2u8; 32], [3u8; 32]];
    let signed = sign(b"abcdefghij", &hashes, 4).unwrap();
    let mut expected = b"abcd".to_vec();
    expected.extend_from_slice(&[2u8; 32]);
    expected.extend_from_slice(b"efgh");
    expected.extend_from_slice(&[1u8; 32]);
    expected.extend_from_slice(b"ij");
    assert_eq!(signed, expected);
}

#[test]
fn block_is_followed_by_the_digest_of_the_next_block() {
    let hashes: Vec<Digest> = vec![[1u8; 32], [2u8; 32], [3u8; 32]];
    let mut first = b"abcd".to_vec();
    first.extend_from_slice(&[2u8; 32]);
    assert_eq!(sign_block(b"abcd", &hashes, 0), first);
    let mut second = b"efgh".to_vec();
    second.extend_from_slice(&[1u8; 32]);
    assert_eq!(sign_block(b"efgh", &hashes, 1), second);
}

#[test]
fn last_block_is_followed_by_nothing() {
    let hashes: Vec<Digest> = vec![[1u8; 32], [2u8; 32], [3u8; 32]];
    assert_eq!(sign_block(b"ij", &hashes, 2), b"ij".to_vec());
    assert_eq!(sign_block(b"ij", &hashes, 3), b"ij".to_vec());
    assert_eq!(sign_block(b"ij", &hashes, usize::MAX), b"ij".to_vec());
    assert_eq!(sign_block(b"ij", &Vec::new(), 0), b"ij".to_vec());
    assert_eq!(sign_block(b"ij", &vec![[9u8; 32]], 0), b"ij".to_vec());
}

#[test]
fn sign_is_the_blocks_signed_one_by_one() {
    let data = pattern(37);
    let hashes = compute_hashes(&data, 8);
    let mut expected = Vec::new();
    for (index, block) in data.chunks(8).enumerate() {
        expected.extend_from_slice(&sign_block(block, &hashes, index));
    }
    assert_eq!(sign(&data, &hashes, 8), Ok(expected));
}

use file_auth::builder::{compute_hashes, root_of};
use file_auth::checker::{check_chunk, verify, Verdict};
use file_auth::digest::Digest;
use file_auth::signer::sign;

fn content(len: usize) -> Vec<u8> {
    (0..len).map(|i| ((i * 7 + 3) % 256) as u8).collect()
}

fn signed_with_root(data: &[u8], block_size: usize) -> (Vec<u8>, Digest) {
    let hashes = compute_hashes(data, block_size);
    let signed = sign(data, &hashes, block_size).unwrap();
    (signed, root_of(&hashes).unwrap())
}

fn digest_of(data: &[u8]) -> Digest {
    <sha2::Sha256 as sha2::Digest>::digest(data).into()
}

#[test]
fn round_trip_of_the_2500_byte_example() {
    let data = content(2500);
    let (signed, root) = signed_with_root(&data, 1024);
    assert_eq!(signed.len(), 2564);
    assert_eq!(verify(&signed, &root, 1024), (true, data));
}

#[test]
fn round_trip_for_many_sizes() {
    for len in 1usize..80 {
        for block_size in 1usize..10 {
            let data = content(len);
            let (signed, root) = signed_with_root(&data, block_size);
            assert_eq!(verify(&signed, &root, block_size), (true, data));
        }
    }
}

#[test]
fn round_trip_of_an_exact_multiple() {
    let data = content(3072);
    let (signed, root) = signed_with_root(&data, 1024);
    assert_eq!(signed.len(), 3072 + 64);
    assert_eq!(verify(&signed, &root, 1024), (true, data));
}

#[test]
fn round_trip_of_a_file_shorter_than_a_block() {
    let data = content(500);
    let (signed, root) = signed_with_root(&data, 1024);
    assert_eq!(signed, data);
    assert_eq!(root, digest_of(&data));
    assert_eq!(verify(&signed, &root, 1024), (true, data));
}

#[test]
fn changed_content_byte_fails_at_its_block() {
    let data = content(2500);
    let (signed, root) = signed_with_root(&data, 1024);

    let mut first = signed.clone();
    first[10] ^= 0x01;
    assert_eq!(verify(&first, &root, 1024), (false, Vec::new()));

    let mut second = signed.clone();
    second[1056 + 5] ^= 0x80;
    assert_eq!(verify(&second, &root, 1024), (false, data[..1024].to_vec()));

    let mut last = signed.clone();
    last[2563] ^= 0xff;
    assert_eq!(verify(&last, &root, 1024), (false, data[..2048].to_vec()));
}

#[test]
fn every_changed_byte_is_caught() {
    let data = content(45);
    let (signed, root) = signed_with_root(&data, 8);
    for pos in 0..signed.len() {
        let mut changed = signed.clone();
        changed[pos] ^= 0x01;
        let (ok, out) = verify(&changed, &root, 8);
        assert!(!ok);
        assert_eq!(out, data[..(pos / 40) * 8].to_vec());
    }
}

#[test]
fn forged_digest_fails_at_its_chunk() {
    let data = content(2500);
    let (signed, root) = signed_with_root(&data, 1024);

    let mut first = signed.clone();
    first[1024] ^= 0x01;
    assert_eq!(verify(&first, &root, 1024), (false, Vec::new()));

    let mut second = signed.clone();
    for byte in second[2080..2112].iter_mut() {
        *byte = 0;
    }
    assert_eq!(verify(&second, &root, 1024), (false, data[..1024].to_vec()));
}

#[test]
fn wrong_root_fails_on_the_first_block() {
    let data = content(2500);
    let (signed, root) = signed_with_root(&data, 1024);
    let mut other = root;
    other[31] ^= 0x01;
    assert_eq!(verify(&signed, &other, 1024), (false, Vec::new()));
    assert_eq!(verify(&signed, &[0u8; 32], 1024), (false, Vec::new()));
}

#[test]
fn root_of_another_file_is_refused() {
    let (signed, _) = signed_with_root(&content(100), 16);
    let (_, other_root) = signed_with_root(&content(101), 16);
    assert_eq!(verify(&signed, &other_root, 16), (false, Vec::new()));
}

#[test]
fn empty_input_is_not_authentic() {
    assert_eq!(verify(b"", &[0u8; 32], 1024), (false, Vec::new()));
    assert_eq!(verify(b"", &digest_of(b""), 1024), (false, Vec::new()));
}

#[test]
fn input_cut_at_a_chunk_boundary_is_not_authentic() {
    let data = content(2500);
    let (signed, root) = signed_with_root(&data, 1024);
    assert_eq!(
        verify(&signed[..1056], &root, 1024),
        (false, data[..1024].to_vec())
    );
    assert_eq!(
        verify(&signed[..2112], &root, 1024),
        (false, data[..2048].to_vec())
    );
}

#[test]
fn input_cut_inside_a_chunk_is_not_authentic() {
    let data = content(2500);
    let (signed, root) = signed_with_root(&data, 1024);
    assert_eq!(verify(&signed[..1000], &root, 1024), (false, Vec::new()));
    assert_eq!(
        verify(&signed[..2563], &root, 1024),
        (false, data[..2048].to_vec())
    );
}

#[test]
fn appended_bytes_are_caught() {
    let data = content(20);
    let (mut signed, root) = signed_with_root(&data, 8);
    signed.push(0);
    assert_eq!(verify(&signed, &root, 8), (false, data[..16].to_vec()));
}

#[test]
fn wrong_block_size_is_caught() {
    let data = content(2500);
    let (signed, root) = signed_with_root(&data, 1024);
    assert_eq!(verify(&signed, &root, 512), (false, Vec::new()));
}

#[test]
fn short_chunk_with_the_expected_digest_is_final() {
    let chunk = b"the last block";
    assert_eq!(check_chunk(&digest_of(chunk), chunk, 1024), Verdict::Final);
    let long = content(1055);
    assert_eq!(check_chunk(&digest_of(&long), &long, 1024), Verdict::Final);
}

#[test]
fn full_chunk_with_the_expected_digest_names_the_next_digest() {
    let mut chunk = content(1024);
    let next: Digest = [0xabu8; 32];
    chunk.extend_from_slice(&next);
    assert_eq!(
        check_chunk(&digest_of(&chunk), &chunk, 1024),
        Verdict::Continue(next)
    );
}

#[test]
fn chunk_with_another_digest_is_rejected() {
    let chunk = b"the last block";
    assert_eq!(
        check_chunk(&digest_of(b"another block"), chunk, 1024),
        Verdict::Rejected
    );
    assert_eq!(check_chunk(&[0u8; 32], chunk, 1024), Verdict::Rejected);
}

#[test]
fn empty_chunk_is_rejected_whatever_is_expected() {
    assert_eq!(check_chunk(&digest_of(b""), b"", 1024), Verdict::Rejected);
    assert_eq!(check_chunk(&[0u8; 32], b"", 1024), Verdict::Rejected);
}

#[test]
fn chunk_is_hashed_and_not_compared_as_it_is() {
    let chunk = [5u8; 32];
    assert_eq!(check_chunk(&chunk, &chunk, 1024), Verdict::Rejected);
}

#[test]
fn verify_is_the_chunks_checked_one_by_one() {
    let data = content(45);
    let (signed, root) = signed_with_root(&data, 8);
    let mut expected = root;
    let mut out = Vec::new();
    let mut done = false;
    for chunk in signed.chunks(40) {
        match check_chunk(&expected, chunk, 8) {
            Verdict::Continue(next) => {
                out.extend_from_slice(&chunk[..8]);
                expected = next;
            }
            Verdict::Final => {
                out.extend_from_slice(chunk);
                done = true;
            }
            Verdict::Rejected => panic!("an authentic chunk was rejected"),
        }
    }
    assert!(done);
    assert_eq!(out, data);
}

//! The digest primitive and the type of its results.

use vstd::prelude::*;

verus! {

/// Number of bytes in a digest.
pub const DIGEST_SIZE: usize = 32;

/// A 256-bit digest.
pub type Digest = [u8; 32];

/// The SHA-256 digest of `data`.
pub uninterp spec fn sha256(data: Seq<u8>) -> [u8; 32];

/// Hashes `data` with `sha2::Sha256::digest`.
///
/// Trusted: the result is the SHA-256 digest of exactly the bytes of `data`,
/// the same for the same bytes on every call.
#[verifier::external_body]
pub(crate) fn sha256_digest(data: &[u8]) -> (digest: Digest)
    ensures
        digest == sha256(data@),
{
    <sha2::Sha256 as sha2::Digest>::digest(data).into()
}

/// Whether two digests hold the same bytes.
pub fn same_digest(a: &Digest, b: &Digest) -> (same: bool)
    ensures
        same == (a@ == b@),
{
    let mut i: usize = 0;
    while i < DIGEST_SIZE
        invariant
            i <= DIGEST_SIZE,
            forall|k: int| 0 <= k < i ==> a@[k] == b@[k],
        decreases DIGEST_SIZE - i,
    {
        if a[i] != b[i] {
            return false;
        }
        i += 1;
    }
    assert(a@ =~= b@);
    true
}

/// The error of `hex::decode`, carried through unread.
#[verifier::external_type_specification]
#[verifier::external_body]
pub struct ExFromHexError(hex::FromHexError);

/// The lower-case hexadecimal digit for a value below 16.
pub open spec fn hex_digit(value: int) -> char {
    if value < 10 {
        ('0' as int + value) as char
    } else {
        ('a' as int + value - 10) as char
    }
}

/// The value of a hexadecimal digit of either case; `None` for any other
/// character.
pub open spec fn hex_value(c: char) -> Option<int> {
    if '0' <= c <= '9' {
        Some(c as int - '0' as int)
    } else if 'a' <= c <= 'f' {
        Some(c as int - 'a' as int + 10)
    } else if 'A' <= c <= 'F' {
        Some(c as int - 'A' as int + 10)
    } else {
        None
    }
}

/// `bytes` in hexadecimal: two lower-case digits for each byte, the high
/// half first.
pub open spec fn hex_encoded(bytes: Seq<u8>) -> Seq<char> {
    Seq::new(
        2 * bytes.len(),
        |i: int|
            hex_digit(
                if i % 2 == 0 {
                    bytes[i / 2] as int / 16
                } else {
                    bytes[i / 2] as int % 16
                },
            ),
    )
}

/// The bytes that `text` stands for in hexadecimal, one for each pair of
/// digits; `None` if `text` has an odd length or holds anything but digits.
pub open spec fn hex_decoded(text: Seq<char>) -> Option<Seq<u8>> {
    if text.len() % 2 == 0 && forall|i: int| 0 <= i < text.len() ==> hex_value(text[i]) is Some {
        Some(
            Seq::new(
                text.len() / 2,
                |i: int| (hex_value(text[2 * i]).unwrap() * 16 + hex_value(text[2 * i + 1]).unwrap()) as u8,
            ),
        )
    } else {
        None
    }
}

/// Writes `bytes` in hexadecimal with `hex::encode`.
///
/// Trusted: the result holds two lower-case hexadecimal digits for each byte
/// of `bytes`, in order, the high half of a byte first, and nothing else.
#[verifier::external_body]
pub(crate) fn hex_encode(bytes: &[u8]) -> (text: String)
    ensures
        text@ == hex_encoded(bytes@),
{
    hex::encode(bytes)
}

/// Reads hexadecimal text with `hex::decode`.
///
/// Trusted: the call succeeds exactly on text of even length made of the
/// digits `0` to `9`, `a` to `f` and `A` to `F` alone, and then gives one byte
/// for each pair of digits, in order, the first digit of a pair as its high
/// half.
#[verifier::external_body]
pub(crate) fn hex_decode(text: &str) -> (result: Result<Vec<u8>, hex::FromHexError>)
    ensures
        result is Ok <==> hex_decoded(text@) is Some,
        result matches Ok(bytes) ==> hex_decoded(text@) == Some(bytes@),
{
    hex::decode(text)
}

/// Why a text is not a root digest.
#[derive(Clone, Copy, Debug, PartialEq, Eq)]
pub enum RootError {
    /// The text is not hexadecimal: its length is odd or it holds a
    /// character that is no hexadecimal digit.
    NotHex,
    /// The text is hexadecimal but does not stand for `DIGEST_SIZE` bytes.
    WrongLength,
}

/// Reads a root digest written in hexadecimal, in either case.
pub fn parse_root(text: &str) -> (result: Result<Digest, RootError>)
    ensures
        match hex_decoded(text@) {
            None => result == Err::<Digest, RootError>(RootError::NotHex),
            Some(bytes) => if bytes.len() == DIGEST_SIZE {
                result matches Ok(root) && root@ == bytes
            } else {
                result == Err::<Digest, RootError>(RootError::WrongLength)
            },
        },
{
    match hex_decode(text) {
        Err(_) => Err(RootError::NotHex),
        Ok(bytes) => {
            if bytes.len() != DIGEST_SIZE {
                return Err(RootError::WrongLength);
            }
            let mut root: Digest = [0u8; 32];
            let mut i: usize = 0;
            while i < DIGEST_SIZE
                invariant
                    i <= DIGEST_SIZE,
                    bytes@.len() == DIGEST_SIZE,
                    forall|k: int| 0 <= k < i ==> root@[k] == bytes@[k],
                decreases DIGEST_SIZE - i,
            {
                root[i] = bytes[i];
                i += 1;
            }
            assert(root@ =~= bytes@);
            Ok(root)
        },
    }
}

/// Writes a root digest in lower-case hexadecimal.
pub fn format_root(root: &Digest) -> (text: String)
    ensures
        text@ == hex_encoded(root@),
{
    hex_encode(root.as_slice())
}

/// What `format_root` writes, `parse_root` reads back: bytes written in
/// hexadecimal stand for themselves.
pub proof fn lemma_hex_round_trip(bytes: Seq<u8>)
    ensures
        hex_decoded(hex_encoded(bytes)) == Some(bytes),
{
    let text = hex_encoded(bytes);
    assert forall|i: int| 0 <= i < text.len() implies hex_value(text[i]) is Some by {
        lemma_hex_digit_value(bytes[i / 2] as int / 16);
        lemma_hex_digit_value(bytes[i / 2] as int % 16);
    }
    assert(hex_decoded(text).unwrap() =~= bytes) by {
        assert forall|k: int| 0 <= k < bytes.len() implies hex_decoded(text).unwrap()[k]
            == bytes[k] by {
            lemma_hex_digit_value(bytes[k] as int / 16);
            lemma_hex_digit_value(bytes[k] as int % 16);
            assert(text[2 * k] == hex_digit(bytes[k] as int / 16));
            assert(text[2 * k + 1] == hex_digit(bytes[k] as int % 16));
        }
    }
}

/// A hexadecimal digit has the value it was made for.
pub proof fn lemma_hex_digit_value(value: int)
    requires
        0 <= value < 16,
    ensures
        hex_value(hex_digit(value)) == Some(value),
{
}

} // verus!

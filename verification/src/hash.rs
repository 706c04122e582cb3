//! Content hashing: SHA-256 digests and their lowercase hex form.
//!
//! Objects are content-addressed by the lowercase hex SHA-256 of their
//! bytes, a 64-character string.

use sha2::Digest;
use vstd::prelude::*;

verus! {

/// The sixteen lowercase hex digits, in value order.
pub open spec fn spec_hex_digits() -> Seq<char> {
    seq!['0', '1', '2', '3', '4', '5', '6', '7', '8', '9', 'a', 'b', 'c', 'd', 'e', 'f']
}

/// The lowercase hex encoding of a byte sequence: two digits per byte,
/// high nibble first.
pub open spec fn hex_of(data: Seq<u8>) -> Seq<char>
    decreases data.len(),
{
    if data.len() == 0 {
        Seq::<char>::empty()
    } else {
        seq![
            spec_hex_digits()[(data.first() / 16) as int],
            spec_hex_digits()[(data.first() % 16) as int],
        ] + hex_of(data.drop_first())
    }
}

/// The hex encoding is twice as long as its input.
pub proof fn lemma_hex_of_len(data: Seq<u8>)
    ensures
        hex_of(data).len() == 2 * data.len(),
    decreases data.len(),
{
    if data.len() > 0 {
        lemma_hex_of_len(data.drop_first());
    }
}

/// The SHA-256 digest of a byte sequence, as the `sha2` crate computes it.
pub uninterp spec fn sha256_of(data: Seq<u8>) -> Seq<u8>;

/// Relies on `sha2::Sha256::digest`: the digest is a pure function of the
/// input bytes and is 32 bytes long.
#[verifier::external_body]
fn sha256_digest(data: &[u8]) -> (r: Vec<u8>)
    ensures
        r@ == sha256_of(data@),
        r@.len() == 32,
{
    sha2::Sha256::digest(data).to_vec()
}

/// Relies on `base16ct::lower::encode_string`: two lowercase hex digits per
/// input byte, high nibble first. Panics above `usize::MAX / 2` input bytes,
/// which the precondition rules out.
#[verifier::external_body]
fn hex_lower(data: &[u8]) -> (r: String)
    requires
        data@.len() <= usize::MAX / 2,
    ensures
        r@ == hex_of(data@),
{
    base16ct::lower::encode_string(data)
}

/// The 64-character lowercase hex SHA-256 of a byte sequence. This is the
/// content address of an object.
pub open spec fn spec_content_hash(data: Seq<u8>) -> Seq<char> {
    hex_of(sha256_of(data))
}

/// Hashes a blob of bytes and returns its content address: the lowercase
/// hex SHA-256, always 64 characters.
pub fn content_hash(data: &[u8]) -> (r: String)
    ensures
        r@ == spec_content_hash(data@),
        r@.len() == 64,
{
    let digest = sha256_digest(data);
    proof {
        lemma_hex_of_len(digest@);
    }
    hex_lower(digest.as_slice())
}

} // verus!

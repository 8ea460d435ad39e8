//! Hashing: SHA3-256, hashing into G1 through a seeded generator, and
//! lower-case hex encoding.
use crate::group::{g1_identity_encoding, g1_valid};
use vstd::prelude::*;

verus! {

/// The SHA3-256 digest of a byte string.
pub uninterp spec fn sha3_256_digest(data: Seq<u8>) -> Seq<u8>;

/// The G1 point (compressed) that `G1Projective::random` draws from a
/// ChaCha20 generator seeded with the 32 bytes.
pub uninterp spec fn g1_from_seed_result(seed: Seq<u8>) -> Seq<u8>;

/// The lower-case hexadecimal digit of a value below 16.
pub open spec fn hex_digit(d: nat) -> char {
    if d < 10 {
        (('0' as nat) + d) as char
    } else {
        (('a' as nat) + (d - 10)) as char
    }
}

/// Two lower-case hexadecimal digits per byte, high nibble first.
pub open spec fn hex_lower(data: Seq<u8>) -> Seq<char>
    decreases data.len(),
{
    if data.len() == 0 {
        Seq::empty()
    } else {
        seq![hex_digit(data[0] as nat / 16), hex_digit(data[0] as nat % 16)] + hex_lower(
            data.subrange(1, data.len() as int),
        )
    }
}

/// `sha3::Sha3_256::digest`. Claims that the result is named by
/// `sha3_256_digest` (a digest is a function of the input alone).
#[verifier::external_body]
pub(crate) fn sha3_256(data: &[u8]) -> (r: [u8; 32])
    ensures
        r@ == sha3_256_digest(data@),
{
    <sha3::Sha3_256 as sha3::Digest>::digest(data).into()
}

/// `G1Projective::random` drawing from `rand_chacha::ChaChaRng::from_seed`
/// (then `to_affine` and `to_compressed`). The generator is deterministic in
/// its seed, so the result is named by `g1_from_seed_result`; it is a point of
/// G1 and, as `random` draws again until it is, not the identity.
#[verifier::external_body]
pub(crate) fn g1_from_seed(seed: [u8; 32]) -> (r: [u8; 48])
    ensures
        r@ == g1_from_seed_result(seed@),
        g1_valid(r@),
        r@ != g1_identity_encoding(),
{
    let mut prng = <rand_chacha::ChaChaRng as rand::SeedableRng>::from_seed(seed);
    bls12_381::G1Affine::from(<bls12_381::G1Projective as group::Group>::random(&mut prng)).to_compressed()
}

/// `hex::encode`. Its documentation: lower-case characters, two per byte.
#[verifier::external_body]
pub(crate) fn hex_encode(data: &[u8]) -> (r: String)
    ensures
        r@ == hex_lower(data@),
{
    hex::encode(data)
}

} // verus!

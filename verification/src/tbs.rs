//! Threshold blind signatures: an ad-hoc threshold blind signature scheme
//! based on BLS signatures over the BLS12-381 curve.
use crate::group::{
    g1_add, g1_generates, g1_generator, g1_identity_encoding, g1_is_valid, g1_point_add, g1_scalar_mul, g1_times, g1_valid,
    g2_add, g2_generates, g2_generator, g2_generator_encoding, g2_identity_encoding, g2_is_valid, g2_point_add,
    g2_scalar_mul, g2_times, g2_valid, gt_eq, pairing, pairing_of,
};
use crate::hash::{
    g1_from_seed, g1_from_seed_result, hex_encode, hex_lower, sha3_256, sha3_256_digest,
};
use crate::key_order::{
    entries_in_key_order, key_order, lemma_key_order_listed, lemma_key_order_unique, lemma_listing_len,
    lists_in_key_order,
};
use crate::lagrange::{
    distinct_canonical, lagrange_coefficient, lagrange_coefficients, lagrange_multipliers,
    lagrange_partial, values,
};
use crate::poly::{eval, lemma_partial_bound, values_at, weighted_sum};
use crate::scalar::{
    add_mod, inverse, is_canonical, le_nat, lemma_is_inverse, lemma_mul_then_inverse,
    lemma_reduce_step, modulus, mul_mod, reduce, scalar_bytes_are_canonical, scalar_from_u64,
    scalar_invert, scalar_random,
};
use std::collections::BTreeMap;
use vstd::arithmetic::div_mod::{
    lemma_add_mod_noop, lemma_mod_bound, lemma_mod_twice, lemma_mul_mod_noop_general, lemma_small_mod,
};
use vstd::arithmetic::mul::lemma_mul_is_distributive_add;
use vstd::prelude::*;

verus! {

/// The domain separation tag of hashing into G1: `b"TBS_BLS12-381_"`.
pub open spec fn hash_tag() -> Seq<u8> {
    seq![0x54u8, 0x42, 0x53, 0x5f, 0x42, 0x4c, 0x53, 0x31, 0x32, 0x2d, 0x33, 0x38, 0x31, 0x5f]
}

/// The domain separation tag of key fingerprints: `b"TBS_KFP24_"`.
pub open spec fn fingerprint_tag() -> Seq<u8> {
    seq![0x54u8, 0x42, 0x53, 0x5f, 0x4b, 0x46, 0x50, 0x32, 0x34, 0x5f]
}

/// The hashing tag as bytes.
fn hash_tag_bytes() -> (r: Vec<u8>)
    ensures
        r@ == hash_tag(),
{
    let r: Vec<u8> = vec![0x54u8, 0x42, 0x53, 0x5f, 0x42, 0x4c, 0x53, 0x31, 0x32, 0x2d, 0x33, 0x38, 0x31, 0x5f];
    assert(r@ =~= hash_tag());
    r
}

/// The fingerprint tag as bytes.
fn fingerprint_tag_bytes() -> (r: Vec<u8>)
    ensures
        r@ == fingerprint_tag(),
{
    let r: Vec<u8> = vec![0x54u8, 0x42, 0x53, 0x5f, 0x4b, 0x46, 0x50, 0x32, 0x34, 0x5f];
    assert(r@ =~= fingerprint_tag());
    r
}

/// `prefix` followed by `data`.
fn concat_bytes(prefix: Vec<u8>, data: &[u8]) -> (r: Vec<u8>)
    ensures
        r@ == prefix@ + data@,
{
    let mut r = prefix;
    let ghost p = r@;
    let mut i: usize = 0;
    while i < data.len()
        invariant
            i <= data.len(),
            r@ == p + data@.subrange(0, i as int),
        decreases data.len() - i,
    {
        r.push(data[i]);
        i = i + 1;
        assert(r@ =~= p + data@.subrange(0, i as int));
    }
    assert(data@.subrange(0, data.len() as int) =~= data@);
    r
}

/// The G1 point that `data` hashes to: the point drawn from a ChaCha20
/// generator seeded with the SHA3-256 digest of the tag and the data.
pub open spec fn hash_to_g1(data: Seq<u8>) -> Seq<u8> {
    g1_from_seed_result(sha3_256_digest(hash_tag() + data))
}

/// Hashing into G1 seeds the generator with the SHA3-256 digest of the bytes
/// of `b"TBS_BLS12-381_"` first and the data after them.
pub proof fn lemma_hash_to_g1_tag_first(data: Seq<u8>)
    ensures
        hash_to_g1(data) == g1_from_seed_result(
            sha3_256_digest(
                seq![
                    0x54u8, 0x42, 0x53, 0x5f, 0x42, 0x4c, 0x53, 0x31, 0x32, 0x2d, 0x33, 0x38, 0x31,
                    0x5f,
                ] + data,
            ),
        ),
        (hash_tag() + data).subrange(0, 14) == hash_tag(),
        (hash_tag() + data).skip(14) == data,
{
    assert((hash_tag() + data).subrange(0, 14) =~= hash_tag());
    assert((hash_tag() + data).skip(14) =~= data);
}

/// Hashes bytes into G1 (see `hash_to_g1`).
fn hash_bytes_to_g1(data: &[u8]) -> (r: [u8; 48])
    ensures
        r@ == hash_to_g1(data@),
        r@ == g1_from_seed_result(sha3_256_digest(hash_tag() + data@)),
        g1_valid(r@),
        r@ != g1_identity_encoding(),
{
    let tagged = concat_bytes(hash_tag_bytes(), data);
    let seed = sha3_256(tagged.as_slice());
    g1_from_seed(seed)
}

/// One peer's share of the secret key.
/// Held as the canonical little-endian encoding of a scalar.
#[derive(Copy, Clone, Debug, PartialEq, Eq)]
pub struct SecretKeyShare([u8; 32]);

impl View for SecretKeyShare {
    type V = Seq<u8>;

    /// The canonical encoding of the scalar.
    closed spec fn view(&self) -> Seq<u8> {
        self.0@
    }
}

impl SecretKeyShare {
    /// The bytes are always a canonical scalar encoding.
    #[verifier::type_invariant]
    spec fn is_a_scalar(self) -> bool {
        is_canonical(self.0@)
    }

    /// The scalar whose canonical encoding the bytes are, if they are one.
    pub fn from_bytes(bytes: [u8; 32]) -> (r: Option<Self>)
        ensures
            r.is_some() <==> is_canonical(bytes@),
            r matches Some(s) ==> s@ == bytes@,
    {
        if scalar_bytes_are_canonical(&bytes) {
            Some(SecretKeyShare(bytes))
        } else {
            None
        }
    }

    /// The canonical encoding of the scalar.
    pub fn to_bytes(&self) -> (r: [u8; 32])
        ensures
            r@ == self@,
            is_canonical(r@),
    {
        proof {
            use_type_invariant(self);
        }
        self.0
    }
}

/// The key with which a message is blinded and a signature unblinded.
/// Held as the canonical little-endian encoding of a scalar.
#[derive(Copy, Clone, PartialEq, Eq)]
pub struct BlindingKey([u8; 32]);

impl View for BlindingKey {
    type V = Seq<u8>;

    /// The canonical encoding of the scalar.
    closed spec fn view(&self) -> Seq<u8> {
        self.0@
    }
}

impl BlindingKey {
    /// The bytes are always a canonical scalar encoding.
    #[verifier::type_invariant]
    spec fn is_a_scalar(self) -> bool {
        is_canonical(self.0@)
    }

    /// The scalar whose canonical encoding the bytes are, if they are one.
    pub fn from_bytes(bytes: [u8; 32]) -> (r: Option<Self>)
        ensures
            r.is_some() <==> is_canonical(bytes@),
            r matches Some(s) ==> s@ == bytes@,
    {
        if scalar_bytes_are_canonical(&bytes) {
            Some(BlindingKey(bytes))
        } else {
            None
        }
    }

    /// The canonical encoding of the scalar.
    pub fn to_bytes(&self) -> (r: [u8; 32])
        ensures
            r@ == self@,
            is_canonical(r@),
    {
        proof {
            use_type_invariant(self);
        }
        self.0
    }
}

/// One peer's share of the public key.
/// Held as the compressed encoding of a point of G2.
#[derive(Copy, Clone, Debug, PartialEq, Eq, Hash)]
pub struct PublicKeyShare([u8; 96]);

impl View for PublicKeyShare {
    type V = Seq<u8>;

    /// The compressed encoding of the point.
    closed spec fn view(&self) -> Seq<u8> {
        self.0@
    }
}

impl PublicKeyShare {
    /// The bytes always encode a point of G2.
    #[verifier::type_invariant]
    spec fn encodes_a_point(self) -> bool {
        g2_valid(self.0@)
    }

    /// The point whose compressed encoding the bytes are, if they are one.
    pub fn from_compressed(bytes: [u8; 96]) -> (r: Option<Self>)
        ensures
            r.is_some() <==> g2_valid(bytes@),
            r matches Some(p) ==> p@ == bytes@,
    {
        if g2_is_valid(&bytes) {
            Some(PublicKeyShare(bytes))
        } else {
            None
        }
    }

    /// The compressed encoding of the point.
    pub fn to_compressed(&self) -> (r: [u8; 96])
        ensures
            r@ == self@,
            g2_valid(r@),
    {
        proof {
            use_type_invariant(self);
        }
        self.0
    }
}

/// The federation's public key.
/// Held as the compressed encoding of a point of G2.
#[derive(Copy, Clone, Debug, PartialEq, Eq, Hash)]
pub struct AggregatePublicKey([u8; 96]);

impl View for AggregatePublicKey {
    type V = Seq<u8>;

    /// The compressed encoding of the point.
    closed spec fn view(&self) -> Seq<u8> {
        self.0@
    }
}

impl AggregatePublicKey {
    /// The bytes always encode a point of G2.
    #[verifier::type_invariant]
    spec fn encodes_a_point(self) -> bool {
        g2_valid(self.0@)
    }

    /// The point whose compressed encoding the bytes are, if they are one.
    pub fn from_compressed(bytes: [u8; 96]) -> (r: Option<Self>)
        ensures
            r.is_some() <==> g2_valid(bytes@),
            r matches Some(p) ==> p@ == bytes@,
    {
        if g2_is_valid(&bytes) {
            Some(AggregatePublicKey(bytes))
        } else {
            None
        }
    }

    /// The compressed encoding of the point.
    pub fn to_compressed(&self) -> (r: [u8; 96])
        ensures
            r@ == self@,
            g2_valid(r@),
    {
        proof {
            use_type_invariant(self);
        }
        self.0
    }
}

/// A message, hashed into G1.
/// Held as the compressed encoding of a point of G1.
#[derive(Copy, Clone, Debug, PartialEq, Eq, Hash)]
pub struct Message([u8; 48]);

impl View for Message {
    type V = Seq<u8>;

    /// The compressed encoding of the point.
    closed spec fn view(&self) -> Seq<u8> {
        self.0@
    }
}

impl Message {
    /// The bytes always encode a point of G1.
    #[verifier::type_invariant]
    spec fn encodes_a_point(self) -> bool {
        g1_valid(self.0@)
    }

    /// The point whose compressed encoding the bytes are, if they are one.
    pub fn from_compressed(bytes: [u8; 48]) -> (r: Option<Self>)
        ensures
            r.is_some() <==> g1_valid(bytes@),
            r matches Some(p) ==> p@ == bytes@,
    {
        if g1_is_valid(&bytes) {
            Some(Message(bytes))
        } else {
            None
        }
    }

    /// The compressed encoding of the point.
    pub fn to_compressed(&self) -> (r: [u8; 48])
        ensures
            r@ == self@,
            g1_valid(r@),
    {
        proof {
            use_type_invariant(self);
        }
        self.0
    }
}

/// A message blinded with a blinding key.
/// Held as the compressed encoding of a point of G1.
#[derive(Copy, Clone, Debug, PartialEq, Eq, Hash)]
pub struct BlindedMessage([u8; 48]);

impl View for BlindedMessage {
    type V = Seq<u8>;

    /// The compressed encoding of the point.
    closed spec fn view(&self) -> Seq<u8> {
        self.0@
    }
}

impl BlindedMessage {
    /// The bytes always encode a point of G1.
    #[verifier::type_invariant]
    spec fn encodes_a_point(self) -> bool {
        g1_valid(self.0@)
    }

    /// The point whose compressed encoding the bytes are, if they are one.
    pub fn from_compressed(bytes: [u8; 48]) -> (r: Option<Self>)
        ensures
            r.is_some() <==> g1_valid(bytes@),
            r matches Some(p) ==> p@ == bytes@,
    {
        if g1_is_valid(&bytes) {
            Some(BlindedMessage(bytes))
        } else {
            None
        }
    }

    /// The compressed encoding of the point.
    pub fn to_compressed(&self) -> (r: [u8; 48])
        ensures
            r@ == self@,
            g1_valid(r@),
    {
        proof {
            use_type_invariant(self);
        }
        self.0
    }
}

/// One peer's signature share on a blinded message.
/// Held as the compressed encoding of a point of G1.
#[derive(Copy, Clone, Debug, PartialEq, Eq, Hash)]
pub struct BlindedSignatureShare([u8; 48]);

impl View for BlindedSignatureShare {
    type V = Seq<u8>;

    /// The compressed encoding of the point.
    closed spec fn view(&self) -> Seq<u8> {
        self.0@
    }
}

impl BlindedSignatureShare {
    /// The bytes always encode a point of G1.
    #[verifier::type_invariant]
    spec fn encodes_a_point(self) -> bool {
        g1_valid(self.0@)
    }

    /// The point whose compressed encoding the bytes are, if they are one.
    pub fn from_compressed(bytes: [u8; 48]) -> (r: Option<Self>)
        ensures
            r.is_some() <==> g1_valid(bytes@),
            r matches Some(p) ==> p@ == bytes@,
    {
        if g1_is_valid(&bytes) {
            Some(BlindedSignatureShare(bytes))
        } else {
            None
        }
    }

    /// The compressed encoding of the point.
    pub fn to_compressed(&self) -> (r: [u8; 48])
        ensures
            r@ == self@,
            g1_valid(r@),
    {
        proof {
            use_type_invariant(self);
        }
        self.0
    }
}

/// A signature on a blinded message, combined from shares.
/// Held as the compressed encoding of a point of G1.
#[derive(Copy, Clone, Debug, PartialEq, Eq, Hash)]
pub struct BlindedSignature([u8; 48]);

impl View for BlindedSignature {
    type V = Seq<u8>;

    /// The compressed encoding of the point.
    closed spec fn view(&self) -> Seq<u8> {
        self.0@
    }
}

impl BlindedSignature {
    /// The bytes always encode a point of G1.
    #[verifier::type_invariant]
    spec fn encodes_a_point(self) -> bool {
        g1_valid(self.0@)
    }

    /// The point whose compressed encoding the bytes are, if they are one.
    pub fn from_compressed(bytes: [u8; 48]) -> (r: Option<Self>)
        ensures
            r.is_some() <==> g1_valid(bytes@),
            r matches Some(p) ==> p@ == bytes@,
    {
        if g1_is_valid(&bytes) {
            Some(BlindedSignature(bytes))
        } else {
            None
        }
    }

    /// The compressed encoding of the point.
    pub fn to_compressed(&self) -> (r: [u8; 48])
        ensures
            r@ == self@,
            g1_valid(r@),
    {
        proof {
            use_type_invariant(self);
        }
        self.0
    }
}

/// A signature on a message, after unblinding.
/// Held as the compressed encoding of a point of G1.
#[derive(Copy, Clone, Debug, PartialEq, Eq, Hash)]
pub struct Signature([u8; 48]);

impl View for Signature {
    type V = Seq<u8>;

    /// The compressed encoding of the point.
    closed spec fn view(&self) -> Seq<u8> {
        self.0@
    }
}

impl Signature {
    /// The bytes always encode a point of G1.
    #[verifier::type_invariant]
    spec fn encodes_a_point(self) -> bool {
        g1_valid(self.0@)
    }

    /// The point whose compressed encoding the bytes are, if they are one.
    pub fn from_compressed(bytes: [u8; 48]) -> (r: Option<Self>)
        ensures
            r.is_some() <==> g1_valid(bytes@),
            r matches Some(p) ==> p@ == bytes@,
    {
        if g1_is_valid(&bytes) {
            Some(Signature(bytes))
        } else {
            None
        }
    }

    /// The compressed encoding of the point.
    pub fn to_compressed(&self) -> (r: [u8; 48])
        ensures
            r@ == self@,
            g1_valid(r@),
    {
        proof {
            use_type_invariant(self);
        }
        self.0
    }
}

/// The public key share of a secret key share: the generator of G2 times the
/// secret.
pub fn derive_pk_share(sk: &SecretKeyShare) -> (r: PublicKeyShare)
    ensures
        r@ == g2_times(g2_generator_encoding(), le_nat(sk@)),
{
    proof {
        use_type_invariant(sk);
    }
    let generator = g2_generator();
    PublicKeyShare(g2_scalar_mul(&generator, &sk.0))
}

impl BlindingKey {
    /// A fresh blinding key drawn from the operating system's randomness.
    pub fn random() -> (r: BlindingKey)
        ensures
            is_canonical(r@),
    {
        BlindingKey(scalar_random())
    }

    /// The SHA3-256 digest of the fingerprint tag and the key's encoding,
    /// which identifies the key without revealing it.
    pub fn fingerprint(&self) -> (r: [u8; 32])
        ensures
            r@ == sha3_256_digest(fingerprint_tag() + self@),
    {
        let data = concat_bytes(fingerprint_tag_bytes(), &self.0);
        sha3_256(data.as_slice())
    }

    /// The fingerprint in lower-case hex: what the key displays as.
    pub fn to_string(&self) -> (r: String)
        ensures
            r@ == hex_lower(sha3_256_digest(fingerprint_tag() + self@)),
    {
        let fingerprint = self.fingerprint();
        hex_encode(&fingerprint)
    }

    /// `BlindingKey(` and the fingerprint in lower-case hex and `)`: what
    /// the key shows when debugged, without revealing it.
    pub fn debug_string(&self) -> (r: String)
        ensures
            r@ == "BlindingKey("@ + hex_lower(sha3_256_digest(fingerprint_tag() + self@)) + ")"@,
    {
        let hex = self.to_string();
        let mut r = String::from_str("BlindingKey(");
        r.append(hex.as_str());
        r.append(")");
        r
    }

    /// Whether the key is zero, the one key that cannot unblind.
    pub fn is_zero(&self) -> (r: bool)
        ensures
            r == (le_nat(self@) == 0),
    {
        proof {
            use_type_invariant(self);
        }
        scalar_invert(&self.0).is_none()
    }
}

impl Message {
    /// The message that the bytes hash to in G1: a point of G1 other than the
    /// identity.
    pub fn from_bytes(msg: &[u8]) -> (r: Message)
        ensures
            r@ == hash_to_g1(msg@),
            r@ == g1_from_seed_result(sha3_256_digest(hash_tag() + msg@)),
            r@ != g1_identity_encoding(),
    {
        Message(hash_bytes_to_g1(msg))
    }
}

/// The message times the blinding key.
pub fn blind_message(msg: Message, blinding_key: BlindingKey) -> (r: BlindedMessage)
    ensures
        r@ == g1_times(msg@, le_nat(blinding_key@)),
{
    proof {
        use_type_invariant(&msg);
        use_type_invariant(&blinding_key);
    }
    BlindedMessage(g1_scalar_mul(&msg.0, &blinding_key.0))
}

/// A peer's signature share: the blinded message times its secret key share.
pub fn sign_message(msg: BlindedMessage, sks: SecretKeyShare) -> (r: BlindedSignatureShare)
    ensures
        r@ == g1_times(msg@, le_nat(sks@)),
        forall|base: Seq<u8>, a: nat|
            #![trigger g1_times(base, a)]
            g1_valid(base) && a < modulus() && msg@ == g1_times(base, a) ==> r@ == g1_times(
                base,
                mul_mod(a, le_nat(sks@)),
            ),
{
    proof {
        use_type_invariant(&msg);
        use_type_invariant(&sks);
    }
    BlindedSignatureShare(g1_scalar_mul(&msg.0, &sks.0))
}

/// The BLS check `e(msg, pk) == e(sig, g2)` on encodings of points.
pub open spec fn pairing_check(msg: Seq<u8>, sig: Seq<u8>, pk: Seq<u8>) -> bool {
    pairing_of(msg, pk) == pairing_of(sig, g2_generator_encoding())
}

/// The BLS check: under a key that is the generator times `x`, it passes
/// exactly the signature that is the message times `x`.
fn check_pairing(msg: &[u8; 48], sig: &[u8; 48], pk: &[u8; 96]) -> (r: bool)
    requires
        g1_valid(msg@),
        g1_valid(sig@),
        g2_valid(pk@),
    ensures
        r == pairing_check(msg@, sig@, pk@),
        forall|x: nat|
            #![trigger g2_times(g2_generator_encoding(), x)]
            x < modulus() && pk@ == g2_times(g2_generator_encoding(), x) ==> (r <==> sig@
                == g1_times(msg@, x)),
{
    let generator = g2_generator();
    let lhs = pairing(msg, pk);
    let rhs = pairing(sig, &generator);
    let r = gt_eq(&lhs, &rhs);
    assert(generator@[0] != g2_identity_encoding()[0]);
    assert forall|x: nat|
        #![trigger g2_times(g2_generator_encoding(), x)]
        x < modulus() && pk@ == g2_times(g2_generator_encoding(), x) implies (r <==> sig@
            == g1_times(msg@, x)) by {
        assert(lhs == pairing_of(g1_times(msg@, x), generator@));
        if r {
            assert(pairing_of(g1_times(msg@, x), generator@) == rhs);
        }
    }
    r
}

/// Whether a signature share is valid for the blinded message under the
/// peer's public key share.
pub fn verify_signature_share(
    msg: BlindedMessage,
    sig: BlindedSignatureShare,
    pk: PublicKeyShare,
) -> (r: bool)
    ensures
        r == pairing_check(msg@, sig@, pk@),
        forall|x: nat|
            #![trigger g2_times(g2_generator_encoding(), x)]
            x < modulus() && pk@ == g2_times(g2_generator_encoding(), x) ==> (r <==> sig@
                == g1_times(msg@, x)),
{
    proof {
        use_type_invariant(&msg);
        use_type_invariant(&sig);
        use_type_invariant(&pk);
    }
    check_pairing(&msg.0, &sig.0, &pk.0)
}

/// Whether a blinded signature is valid for the blinded message under the
/// aggregate public key.
pub fn verify_blinded_signature(
    msg: BlindedMessage,
    sig: BlindedSignature,
    pk: AggregatePublicKey,
) -> (r: bool)
    ensures
        r == pairing_check(msg@, sig@, pk@),
        forall|x: nat|
            #![trigger g2_times(g2_generator_encoding(), x)]
            x < modulus() && pk@ == g2_times(g2_generator_encoding(), x) ==> (r <==> sig@
                == g1_times(msg@, x)),
{
    proof {
        use_type_invariant(&msg);
        use_type_invariant(&sig);
        use_type_invariant(&pk);
    }
    check_pairing(&msg.0, &sig.0, &pk.0)
}

/// Whether a signature is valid for the message under the aggregate public
/// key.
pub fn verify(msg: Message, sig: Signature, pk: AggregatePublicKey) -> (r: bool)
    ensures
        r == pairing_check(msg@, sig@, pk@),
        forall|x: nat|
            #![trigger g2_times(g2_generator_encoding(), x)]
            x < modulus() && pk@ == g2_times(g2_generator_encoding(), x) ==> (r <==> sig@
                == g1_times(msg@, x)),
{
    proof {
        use_type_invariant(&msg);
        use_type_invariant(&sig);
        use_type_invariant(&pk);
    }
    check_pairing(&msg.0, &sig.0, &pk.0)
}

/// The blinded signature times the inverse of the blinding key. The key must
/// not be zero (zero has no inverse).
pub fn unblind_signature(blinding_key: BlindingKey, blinded_sig: BlindedSignature) -> (r: Signature)
    requires
        le_nat(blinding_key@) != 0,
    ensures
        r@ == g1_times(blinded_sig@, inverse(le_nat(blinding_key@))),
        forall|base: Seq<u8>, f: nat|
            #![trigger g1_times(base, mul_mod(le_nat(blinding_key@), f))]
            g1_valid(base) && f < modulus() && blinded_sig@ == g1_times(
                base,
                mul_mod(le_nat(blinding_key@), f),
            ) ==> r@ == g1_times(base, f),
{
    proof {
        use_type_invariant(&blinding_key);
        use_type_invariant(&blinded_sig);
    }
    let inv = match scalar_invert(&blinding_key.0) {
        Some(v) => v,
        None => {
            proof {
                assert(false);
            }
            blinding_key.0
        },
    };
    proof {
        lemma_is_inverse(le_nat(blinding_key.0@), le_nat(inv@));
    }
    let r = g1_scalar_mul(&blinded_sig.0, &inv);
    let ghost b = le_nat(blinding_key@);
    assert forall|base: Seq<u8>, f: nat|
        #![trigger g1_times(base, mul_mod(b, f))]
        g1_valid(base) && f < modulus() && blinded_sig@ == g1_times(base, mul_mod(b, f)) implies r@
        == g1_times(base, f) by {
        lemma_mul_then_inverse(b, f, le_nat(inv@));
    }
    Signature(r)
}

/// The points at which the peers' shares are taken: each peer's index plus
/// one, in the order of the listing.
pub open spec fn peer_points(entries: Seq<(u64, Seq<u8>)>) -> Seq<nat> {
    entries.map_values(|e: (u64, Seq<u8>)| e.0 as nat + 1)
}

/// The shares of a listing.
pub open spec fn entry_points(entries: Seq<(u64, Seq<u8>)>) -> Seq<Seq<u8>> {
    entries.map_values(|e: (u64, Seq<u8>)| e.1)
}

/// `coeffs[0] * points[0] + ... + coeffs[n-1] * points[n-1]` in G1, summed
/// from the left.
pub open spec fn g1_combination(coeffs: Seq<nat>, points: Seq<Seq<u8>>, n: nat) -> Seq<u8>
    decreases n,
{
    if n <= 1 {
        g1_times(points[0], coeffs[0])
    } else {
        g1_add(
            g1_combination(coeffs, points, (n - 1) as nat),
            g1_times(points[n - 1], coeffs[n - 1]),
        )
    }
}

/// `coeffs[0] * points[0] + ... + coeffs[n-1] * points[n-1]` in G2, summed
/// from the left.
pub open spec fn g2_combination(coeffs: Seq<nat>, points: Seq<Seq<u8>>, n: nat) -> Seq<u8>
    decreases n,
{
    if n <= 1 {
        g2_times(points[0], coeffs[0])
    } else {
        g2_add(
            g2_combination(coeffs, points, (n - 1) as nat),
            g2_times(points[n - 1], coeffs[n - 1]),
        )
    }
}

/// The G1 point that shares listed by peer combine to: the only share when
/// there is one, else the sum of each share times its peer's Lagrange
/// multiplier at zero.
pub open spec fn aggregate_g1(entries: Seq<(u64, Seq<u8>)>) -> Seq<u8> {
    if entries.len() == 1 {
        entries[0].1
    } else {
        g1_combination(
            lagrange_coefficients(peer_points(entries)),
            entry_points(entries),
            entries.len(),
        )
    }
}

/// The G2 point that shares listed by peer combine to, as `aggregate_g1`.
pub open spec fn aggregate_g2(entries: Seq<(u64, Seq<u8>)>) -> Seq<u8> {
    if entries.len() == 1 {
        entries[0].1
    } else {
        g2_combination(
            lagrange_coefficients(peer_points(entries)),
            entry_points(entries),
            entries.len(),
        )
    }
}

/// The signature shares of a map, by increasing peer, as encodings.
pub open spec fn signature_share_entries(shares: Map<u64, BlindedSignatureShare>) -> Seq<
    (u64, Seq<u8>),
> {
    key_order(shares).map_values(|e: (u64, BlindedSignatureShare)| (e.0, e.1@))
}

/// The public key shares of a map, by increasing peer, as encodings.
pub open spec fn public_key_share_entries(shares: Map<u64, PublicKeyShare>) -> Seq<
    (u64, Seq<u8>),
> {
    key_order(shares).map_values(|e: (u64, PublicKeyShare)| (e.0, e.1@))
}

/// Every signature share of the map is `base` times the value of the
/// polynomial `f` at its peer's point (the peer's index plus one).
pub open spec fn g1_shares_on(
    shares: Map<u64, BlindedSignatureShare>,
    base: Seq<u8>,
    f: Seq<int>,
) -> bool {
    forall|peer: u64| #[trigger]
        shares.contains_key(peer) ==> shares[peer]@ == g1_times(base, reduce(eval(f, peer + 1)))
}

/// Every public key share of the map is `base` times the value of the
/// polynomial `f` at its peer's point (the peer's index plus one).
pub open spec fn g2_shares_on(shares: Map<u64, PublicKeyShare>, base: Seq<u8>, f: Seq<int>) -> bool {
    forall|peer: u64| #[trigger]
        shares.contains_key(peer) ==> shares[peer]@ == g2_times(base, reduce(eval(f, peer + 1)))
}

/// A polynomial with at most one coefficient has the same value everywhere.
proof fn lemma_eval_constant(f: Seq<int>, t: int)
    requires
        f.len() <= 1,
    ensures
        eval(f, t) == eval(f, 0),
{
    if f.len() == 1 {
        assert(eval(f.drop_first(), t) == 0);
        assert(eval(f.drop_first(), 0) == 0);
        assert(t * 0 == 0);
    }
}

/// The scalars of the peers of a listing, in its order.
pub open spec fn peer_values(entries: Seq<(u64, Seq<u8>)>, ys: Map<u64, nat>) -> Seq<int> {
    entries.map_values(|e: (u64, Seq<u8>)| ys[e.0] as int)
}

/// The scalar that the peers' scalars `ys` combine to: the sum over the peers,
/// in increasing order, of each peer's scalar times its Lagrange multiplier at
/// zero (its point being its index plus one), modulo `q`.
pub open spec fn combined_scalar(ys: Map<u64, nat>) -> nat {
    let s = key_order(ys);
    reduce(
        weighted_sum(
            lagrange_coefficients(s.map_values(|e: (u64, nat)| e.0 as nat + 1)),
            s.map_values(|e: (u64, nat)| e.1 as int),
            s.len(),
        ),
    )
}

/// The combined scalar, over a listing of shares with the same peers.
spec fn aggregate_scalar(entries: Seq<(u64, Seq<u8>)>, ys: Map<u64, nat>) -> nat {
    reduce(
        weighted_sum(
            lagrange_coefficients(peer_points(entries)),
            peer_values(entries, ys),
            entries.len(),
        ),
    )
}

/// Every signature share of the map is `base` times its peer's scalar in `ys`.
pub open spec fn g1_shares_times(
    shares: Map<u64, BlindedSignatureShare>,
    base: Seq<u8>,
    ys: Map<u64, nat>,
) -> bool {
    &&& forall|peer: u64| #[trigger] ys.contains_key(peer) ==> shares.contains_key(peer)
    &&& forall|peer: u64| #[trigger]
        shares.contains_key(peer) ==> ys.contains_key(peer) && ys[peer] < modulus() && shares[peer]@
            == g1_times(base, ys[peer])
}

/// Every public key share of the map is `base` times its peer's scalar in `ys`.
pub open spec fn g2_shares_times(
    shares: Map<u64, PublicKeyShare>,
    base: Seq<u8>,
    ys: Map<u64, nat>,
) -> bool {
    &&& forall|peer: u64| #[trigger] ys.contains_key(peer) ==> shares.contains_key(peer)
    &&& forall|peer: u64| #[trigger]
        shares.contains_key(peer) ==> ys.contains_key(peer) && ys[peer] < modulus() && shares[peer]@
            == g2_times(base, ys[peer])
}

/// The combined scalar of `ys`, whose peers are those of a map, taken over a
/// listing of the map.
proof fn lemma_combined_scalar<V>(
    m: Map<u64, V>,
    entries: Seq<(u64, V)>,
    views: Seq<(u64, Seq<u8>)>,
    ys: Map<u64, nat>,
)
    requires
        lists_in_key_order(m, entries),
        views.len() == entries.len(),
        forall|i: int| 0 <= i < views.len() ==> #[trigger] views[i].0 == entries[i].0,
        forall|peer: u64| #[trigger] ys.contains_key(peer) ==> m.contains_key(peer),
        forall|peer: u64| #[trigger] m.contains_key(peer) ==> ys.contains_key(peer),
    ensures
        combined_scalar(ys) == aggregate_scalar(views, ys),
{
    let listing = entries.map_values(|e: (u64, V)| (e.0, ys[e.0]));
    assert forall|i: int, j: int| 0 <= i < j < listing.len() implies #[trigger] listing[i].0
        < #[trigger] listing[j].0 by {
        assert(entries[i].0 < entries[j].0);
    }
    assert forall|i: int| 0 <= i < listing.len() implies ys.contains_key(#[trigger] listing[i].0)
        && ys[listing[i].0] == listing[i].1 by {
        assert(m.contains_key(entries[i].0));
    }
    assert forall|k: u64| #[trigger] ys.contains_key(k) implies exists|i: int|
        0 <= i < listing.len() && #[trigger] listing[i].0 == k by {
        assert(m.contains_key(k));
        let i = choose|i: int| 0 <= i < entries.len() && #[trigger] entries[i].0 == k;
        assert(listing[i].0 == k);
    }
    assert(lists_in_key_order(ys, listing));
    lemma_key_order_unique(ys, listing, key_order(ys));
    assert(listing.map_values(|e: (u64, nat)| e.0 as nat + 1) =~= peer_points(views));
    assert(listing.map_values(|e: (u64, nat)| e.1 as int) =~= peer_values(views, ys));
}

/// With one peer, the combined scalar is that peer's scalar.
proof fn lemma_single_peer_scalar(views: Seq<(u64, Seq<u8>)>, ys: Map<u64, nat>)
    requires
        views.len() == 1,
        ys[views[0].0] < modulus(),
    ensures
        aggregate_scalar(views, ys) == ys[views[0].0],
{
    let xs = peer_points(views);
    let coeffs = lagrange_coefficients(xs);
    let vals = peer_values(views, ys);
    assert(coeffs[0] == lagrange_partial(xs, 0, 1));
    assert(lagrange_partial(xs, 0, 1) == lagrange_partial(xs, 0, 0));
    assert(weighted_sum(coeffs, vals, 0) == 0);
    assert(weighted_sum(coeffs, vals, 1) == 1 * vals[0]);
    lemma_small_mod(ys[views[0].0], modulus());
}

/// Weighted sums of terms that agree modulo `q` agree modulo `q`.
proof fn lemma_weighted_sum_congruent(ls: Seq<nat>, a: Seq<int>, b: Seq<int>, k: nat)
    requires
        k <= a.len(),
        k <= b.len(),
        forall|i: int| 0 <= i < k ==> #[trigger] a[i] % (modulus() as int) == b[i] % (
        modulus() as int),
    ensures
        weighted_sum(ls, a, k) % (modulus() as int) == weighted_sum(ls, b, k) % (modulus() as int),
    decreases k,
{
    if k > 0 {
        let q = modulus() as int;
        let i = k - 1;
        lemma_weighted_sum_congruent(ls, a, b, (k - 1) as nat);
        assert(a[i] % q == b[i] % q);
        lemma_mul_mod_noop_general(ls[i] as int, a[i], q);
        lemma_mul_mod_noop_general(ls[i] as int, b[i], q);
        lemma_add_mod_noop(weighted_sum(ls, a, (k - 1) as nat), ls[i] * a[i], q);
        lemma_add_mod_noop(weighted_sum(ls, b, (k - 1) as nat), ls[i] * b[i], q);
    }
}

/// Weighted sums add up term by term.
proof fn lemma_weighted_sum_add(ls: Seq<nat>, a: Seq<int>, b: Seq<int>, d: Seq<int>, k: nat)
    requires
        k <= a.len(),
        k <= b.len(),
        k <= d.len(),
        forall|i: int| 0 <= i < k ==> #[trigger] d[i] == a[i] + b[i],
    ensures
        weighted_sum(ls, d, k) == weighted_sum(ls, a, k) + weighted_sum(ls, b, k),
    decreases k,
{
    if k > 0 {
        let i = k - 1;
        lemma_weighted_sum_add(ls, a, b, d, (k - 1) as nat);
        assert(d[i] == a[i] + b[i]);
        lemma_mul_is_distributive_add(ls[i] as int, a[i], b[i]);
    }
}

/// The peers' scalars `ys` and `zs` added peer by peer, modulo `q`.
pub open spec fn scalar_sum(ys: Map<u64, nat>, zs: Map<u64, nat>) -> Map<u64, nat> {
    Map::new(|peer: u64| ys.contains_key(peer), |peer: u64| add_mod(ys[peer], zs[peer]))
}

/// Combining the peers' scalars is linear: for two families of scalars of the
/// same peers, the combination of their sum, peer by peer, is the sum of their
/// combinations, modulo `q`.
pub proof fn lemma_combined_scalar_additive(ys: Map<u64, nat>, zs: Map<u64, nat>)
    requires
        ys.dom() == zs.dom(),
    ensures
        combined_scalar(scalar_sum(ys, zs)) == add_mod(combined_scalar(ys), combined_scalar(zs)),
{
    let q = modulus() as int;
    let sum = scalar_sum(ys, zs);
    let s = key_order(ys);
    lemma_key_order_listed(ys);
    let sz = s.map_values(|e: (u64, nat)| (e.0, zs[e.0]));
    let ss = s.map_values(|e: (u64, nat)| (e.0, sum[e.0]));
    assert forall|k: u64| #[trigger] zs.contains_key(k) implies exists|i: int|
        0 <= i < sz.len() && #[trigger] sz[i].0 == k by {
        assert(ys.contains_key(k));
        let i = choose|i: int| 0 <= i < s.len() && #[trigger] s[i].0 == k;
        assert(sz[i].0 == k);
    }
    assert forall|k: u64| #[trigger] sum.contains_key(k) implies exists|i: int|
        0 <= i < ss.len() && #[trigger] ss[i].0 == k by {
        assert(ys.contains_key(k));
        let i = choose|i: int| 0 <= i < s.len() && #[trigger] s[i].0 == k;
        assert(ss[i].0 == k);
    }
    assert forall|i: int, j: int| 0 <= i < j < sz.len() implies #[trigger] sz[i].0
        < #[trigger] sz[j].0 by {
        assert(s[i].0 < s[j].0);
    }
    assert forall|i: int, j: int| 0 <= i < j < ss.len() implies #[trigger] ss[i].0
        < #[trigger] ss[j].0 by {
        assert(s[i].0 < s[j].0);
    }
    assert forall|i: int| 0 <= i < sz.len() implies zs.contains_key(#[trigger] sz[i].0)
        && zs[sz[i].0] == sz[i].1 by {
        assert(ys.contains_key(s[i].0));
    }
    assert forall|i: int| 0 <= i < ss.len() implies sum.contains_key(#[trigger] ss[i].0)
        && sum[ss[i].0] == ss[i].1 by {
        assert(ys.contains_key(s[i].0));
    }
    lemma_key_order_listed(zs);
    lemma_key_order_unique(zs, sz, key_order(zs));
    lemma_key_order_listed(sum);
    lemma_key_order_unique(sum, ss, key_order(sum));
    let coeffs = lagrange_coefficients(s.map_values(|e: (u64, nat)| e.0 as nat + 1));
    assert(sz.map_values(|e: (u64, nat)| e.0 as nat + 1) =~= s.map_values(
        |e: (u64, nat)| e.0 as nat + 1,
    ));
    assert(ss.map_values(|e: (u64, nat)| e.0 as nat + 1) =~= s.map_values(
        |e: (u64, nat)| e.0 as nat + 1,
    ));
    let n = s.len();
    let a = s.map_values(|e: (u64, nat)| e.1 as int);
    let b = sz.map_values(|e: (u64, nat)| e.1 as int);
    let c = ss.map_values(|e: (u64, nat)| e.1 as int);
    let d = Seq::new(n, |i: int| a[i] + b[i]);
    assert forall|i: int| 0 <= i < n implies #[trigger] c[i] % q == d[i] % q by {
        assert(ys.contains_key(s[i].0));
        assert(s[i].1 == ys[s[i].0]);
        assert(c[i] == add_mod(ys[s[i].0], zs[s[i].0]));
        lemma_mod_twice(a[i] + b[i], q);
    }
    lemma_weighted_sum_congruent(coeffs, c, d, n);
    lemma_weighted_sum_add(coeffs, a, b, d, n);
    lemma_add_mod_noop(weighted_sum(coeffs, a, n), weighted_sum(coeffs, b, n), q);
}

/// Every share of `shares` is the sum of the shares of `a` and `c` of the same
/// peer, all three maps having the same peers.
pub open spec fn g1_shares_sum(
    shares: Map<u64, BlindedSignatureShare>,
    a: Map<u64, BlindedSignatureShare>,
    c: Map<u64, BlindedSignatureShare>,
) -> bool {
    &&& a.dom() == shares.dom()
    &&& c.dom() == shares.dom()
    &&& forall|peer: u64| #[trigger]
        shares.contains_key(peer) ==> g1_valid(a[peer]@) && g1_valid(c[peer]@) && shares[peer]@
            == g1_add(a[peer]@, c[peer]@)
}

/// A combination of multiples of a generator of G1 is the generator times the
/// weighted sum of their exponents, modulo `q`.
proof fn lemma_g1_combination_of_multiples(
    gen: Seq<u8>,
    coeffs: Seq<nat>,
    points: Seq<Seq<u8>>,
    vals: Seq<int>,
    n: nat,
)
    requires
        g1_generates(gen),
        1 <= n,
        n <= coeffs.len(),
        n <= points.len(),
        n <= vals.len(),
        forall|i: int|
            0 <= i < n ==> #[trigger] coeffs[i] < modulus() && 0 <= vals[i] < modulus()
                && points[i] == g1_times(gen, vals[i] as nat),
    ensures
        g1_combination(coeffs, points, n) == g1_times(gen, reduce(weighted_sum(coeffs, vals, n))),
    decreases n,
{
    reveal(g1_generates);
    let q = modulus();
    let i = n - 1;
    assert(coeffs[i] < q);
    let v = vals[i] as nat;
    let l = coeffs[i];
    assert(g1_times(g1_times(gen, v), l) == g1_times(gen, mul_mod(v, l)));
    lemma_small_mod(v, q);
    let w = weighted_sum(coeffs, vals, (n - 1) as nat);
    lemma_reduce_step(w, v as int, l);
    lemma_mod_bound(w, q as int);
    if n == 1 {
        assert(w == 0);
        lemma_small_mod(0, q);
        lemma_small_mod(mul_mod(v, l), q);
    } else {
        lemma_g1_combination_of_multiples(gen, coeffs, points, vals, (n - 1) as nat);
        assert(g1_add(g1_times(gen, reduce(w)), g1_times(gen, mul_mod(v, l))) == g1_times(
            gen,
            add_mod(reduce(w), mul_mod(v, l)),
        ));
    }
}

/// The aggregate of shares that are multiples of a generator of G1 is the
/// generator times the combination of their exponents.
proof fn lemma_g1_aggregate_of_multiples(
    gen: Seq<u8>,
    m: Map<u64, BlindedSignatureShare>,
    ys: Map<u64, nat>,
)
    requires
        g1_generates(gen),
        m.dom().finite(),
        m.len() > 0,
        ys.dom() == m.dom(),
        forall|peer: u64| #[trigger]
            m.contains_key(peer) ==> ys[peer] < modulus() && m[peer]@ == g1_times(gen, ys[peer]),
    ensures
        aggregate_g1(signature_share_entries(m)) == g1_times(gen, combined_scalar(ys)),
{
    reveal(g1_generates);
    let entries = key_order(m);
    lemma_key_order_listed(m);
    lemma_listing_nonempty(m, entries);
    let views = signature_share_entries(m);
    lemma_combined_scalar(m, entries, views, ys);
    let xs = peer_points(views);
    let coeffs = lagrange_coefficients(xs);
    let vals = peer_values(views, ys);
    let n = views.len();
    assert forall|i: int|
        0 <= i < n implies #[trigger] coeffs[i] < modulus() && 0 <= vals[i] < modulus()
        && entry_points(views)[i] == g1_times(gen, vals[i] as nat) by {
        lemma_partial_bound(xs, i, xs.len());
        assert(m.contains_key(entries[i].0));
    }
    if n == 1 {
        lemma_single_peer_scalar(views, ys);
    } else {
        lemma_g1_combination_of_multiples(gen, coeffs, entry_points(views), vals, n);
    }
}

/// Aggregation in G1 is linear: given that the shares combine, for every
/// choice of exponents of a generator, to the generator times the combined
/// exponents (as `aggregate_signature_shares` ensures of its result `r`), the
/// aggregate of shares that are sums of two share maps is the sum of the two
/// maps' aggregates.
proof fn lemma_g1_aggregate_linear(shares: Map<u64, BlindedSignatureShare>, r: Seq<u8>, gen: Seq<u8>)
    requires
        g1_generates(gen),
        shares.dom().finite(),
        shares.len() > 0,
        forall|ys: Map<u64, nat>|
            #[trigger] g1_shares_times(shares, gen, ys) ==> r == g1_times(gen, combined_scalar(ys)),
    ensures
        forall|a: Map<u64, BlindedSignatureShare>, c: Map<u64, BlindedSignatureShare>|
            #[trigger] g1_shares_sum(shares, a, c) ==> r == g1_add(
                aggregate_g1(signature_share_entries(a)),
                aggregate_g1(signature_share_entries(c)),
            ),
{
    reveal(g1_generates);
    assert forall|a: Map<u64, BlindedSignatureShare>, c: Map<u64, BlindedSignatureShare>|
        #[trigger] g1_shares_sum(shares, a, c) implies r == g1_add(
        aggregate_g1(signature_share_entries(a)),
        aggregate_g1(signature_share_entries(c)),
    ) by {
        let q = modulus();
        let ya = Map::new(
            |peer: u64| shares.contains_key(peer),
            |peer: u64| choose|t: nat| t < q && a[peer]@ == g1_times(gen, t),
        );
        let yc = Map::new(
            |peer: u64| shares.contains_key(peer),
            |peer: u64| choose|t: nat| t < q && c[peer]@ == g1_times(gen, t),
        );
        assert forall|peer: u64| #[trigger] a.contains_key(peer) implies ya[peer] < q
            && a[peer]@ == g1_times(gen, ya[peer]) by {
            assert(shares.contains_key(peer));
            assert(g1_valid(a[peer]@));
        }
        assert forall|peer: u64| #[trigger] c.contains_key(peer) implies yc[peer] < q
            && c[peer]@ == g1_times(gen, yc[peer]) by {
            assert(shares.contains_key(peer));
            assert(g1_valid(c[peer]@));
        }
        assert(ya.dom() =~= a.dom());
        assert(yc.dom() =~= c.dom());
        let ys = scalar_sum(ya, yc);
        assert forall|peer: u64| #[trigger] shares.contains_key(peer) implies ys.contains_key(peer)
            && ys[peer] < q && shares[peer]@ == g1_times(gen, ys[peer]) by {
            assert(a.contains_key(peer));
            assert(c.contains_key(peer));
            assert(g1_add(g1_times(gen, ya[peer]), g1_times(gen, yc[peer])) == g1_times(
                gen,
                add_mod(ya[peer], yc[peer]),
            ));
        }
        assert(g1_shares_times(shares, gen, ys));
        lemma_combined_scalar_additive(ya, yc);
        lemma_g1_aggregate_of_multiples(gen, a, ya);
        lemma_g1_aggregate_of_multiples(gen, c, yc);
        let ca = combined_scalar(ya);
        let cc = combined_scalar(yc);
        assert(g1_add(g1_times(gen, ca), g1_times(gen, cc)) == g1_times(gen, add_mod(ca, cc)));
    }
}

/// Every share of `shares` is the sum of the shares of `a` and `c` of the same
/// peer, all three maps having the same peers.
pub open spec fn g2_shares_sum(
    shares: Map<u64, PublicKeyShare>,
    a: Map<u64, PublicKeyShare>,
    c: Map<u64, PublicKeyShare>,
) -> bool {
    &&& a.dom() == shares.dom()
    &&& c.dom() == shares.dom()
    &&& forall|peer: u64| #[trigger]
        shares.contains_key(peer) ==> g2_valid(a[peer]@) && g2_valid(c[peer]@) && shares[peer]@
            == g2_add(a[peer]@, c[peer]@)
}

/// A combination of multiples of a generator of G2 is the generator times the
/// weighted sum of their exponents, modulo `q`.
proof fn lemma_g2_combination_of_multiples(
    gen: Seq<u8>,
    coeffs: Seq<nat>,
    points: Seq<Seq<u8>>,
    vals: Seq<int>,
    n: nat,
)
    requires
        g2_generates(gen),
        1 <= n,
        n <= coeffs.len(),
        n <= points.len(),
        n <= vals.len(),
        forall|i: int|
            0 <= i < n ==> #[trigger] coeffs[i] < modulus() && 0 <= vals[i] < modulus()
                && points[i] == g2_times(gen, vals[i] as nat),
    ensures
        g2_combination(coeffs, points, n) == g2_times(gen, reduce(weighted_sum(coeffs, vals, n))),
    decreases n,
{
    reveal(g2_generates);
    let q = modulus();
    let i = n - 1;
    assert(coeffs[i] < q);
    let v = vals[i] as nat;
    let l = coeffs[i];
    assert(g2_times(g2_times(gen, v), l) == g2_times(gen, mul_mod(v, l)));
    lemma_small_mod(v, q);
    let w = weighted_sum(coeffs, vals, (n - 1) as nat);
    lemma_reduce_step(w, v as int, l);
    lemma_mod_bound(w, q as int);
    if n == 1 {
        assert(w == 0);
        lemma_small_mod(0, q);
        lemma_small_mod(mul_mod(v, l), q);
    } else {
        lemma_g2_combination_of_multiples(gen, coeffs, points, vals, (n - 1) as nat);
        assert(g2_add(g2_times(gen, reduce(w)), g2_times(gen, mul_mod(v, l))) == g2_times(
            gen,
            add_mod(reduce(w), mul_mod(v, l)),
        ));
    }
}

/// The aggregate of shares that are multiples of a generator of G2 is the
/// generator times the combination of their exponents.
proof fn lemma_g2_aggregate_of_multiples(
    gen: Seq<u8>,
    m: Map<u64, PublicKeyShare>,
    ys: Map<u64, nat>,
)
    requires
        g2_generates(gen),
        m.dom().finite(),
        m.len() > 0,
        ys.dom() == m.dom(),
        forall|peer: u64| #[trigger]
            m.contains_key(peer) ==> ys[peer] < modulus() && m[peer]@ == g2_times(gen, ys[peer]),
    ensures
        aggregate_g2(public_key_share_entries(m)) == g2_times(gen, combined_scalar(ys)),
{
    reveal(g2_generates);
    let entries = key_order(m);
    lemma_key_order_listed(m);
    lemma_listing_nonempty(m, entries);
    let views = public_key_share_entries(m);
    lemma_combined_scalar(m, entries, views, ys);
    let xs = peer_points(views);
    let coeffs = lagrange_coefficients(xs);
    let vals = peer_values(views, ys);
    let n = views.len();
    assert forall|i: int|
        0 <= i < n implies #[trigger] coeffs[i] < modulus() && 0 <= vals[i] < modulus()
        && entry_points(views)[i] == g2_times(gen, vals[i] as nat) by {
        lemma_partial_bound(xs, i, xs.len());
        assert(m.contains_key(entries[i].0));
    }
    if n == 1 {
        lemma_single_peer_scalar(views, ys);
    } else {
        lemma_g2_combination_of_multiples(gen, coeffs, entry_points(views), vals, n);
    }
}

/// Aggregation in G2 is linear: given that the shares combine, for every
/// choice of exponents of a generator, to the generator times the combined
/// exponents (as `aggregate_public_key_shares` ensures of its result `r`), the
/// aggregate of shares that are sums of two share maps is the sum of the two
/// maps' aggregates.
proof fn lemma_g2_aggregate_linear(shares: Map<u64, PublicKeyShare>, r: Seq<u8>, gen: Seq<u8>)
    requires
        g2_generates(gen),
        shares.dom().finite(),
        shares.len() > 0,
        forall|ys: Map<u64, nat>|
            #[trigger] g2_shares_times(shares, gen, ys) ==> r == g2_times(gen, combined_scalar(ys)),
    ensures
        forall|a: Map<u64, PublicKeyShare>, c: Map<u64, PublicKeyShare>|
            #[trigger] g2_shares_sum(shares, a, c) ==> r == g2_add(
                aggregate_g2(public_key_share_entries(a)),
                aggregate_g2(public_key_share_entries(c)),
            ),
{
    reveal(g2_generates);
    assert forall|a: Map<u64, PublicKeyShare>, c: Map<u64, PublicKeyShare>|
        #[trigger] g2_shares_sum(shares, a, c) implies r == g2_add(
        aggregate_g2(public_key_share_entries(a)),
        aggregate_g2(public_key_share_entries(c)),
    ) by {
        let q = modulus();
        let ya = Map::new(
            |peer: u64| shares.contains_key(peer),
            |peer: u64| choose|t: nat| t < q && a[peer]@ == g2_times(gen, t),
        );
        let yc = Map::new(
            |peer: u64| shares.contains_key(peer),
            |peer: u64| choose|t: nat| t < q && c[peer]@ == g2_times(gen, t),
        );
        assert forall|peer: u64| #[trigger] a.contains_key(peer) implies ya[peer] < q
            && a[peer]@ == g2_times(gen, ya[peer]) by {
            assert(shares.contains_key(peer));
            assert(g2_valid(a[peer]@));
        }
        assert forall|peer: u64| #[trigger] c.contains_key(peer) implies yc[peer] < q
            && c[peer]@ == g2_times(gen, yc[peer]) by {
            assert(shares.contains_key(peer));
            assert(g2_valid(c[peer]@));
        }
        assert(ya.dom() =~= a.dom());
        assert(yc.dom() =~= c.dom());
        let ys = scalar_sum(ya, yc);
        assert forall|peer: u64| #[trigger] shares.contains_key(peer) implies ys.contains_key(peer)
            && ys[peer] < q && shares[peer]@ == g2_times(gen, ys[peer]) by {
            assert(a.contains_key(peer));
            assert(c.contains_key(peer));
            assert(g2_add(g2_times(gen, ya[peer]), g2_times(gen, yc[peer])) == g2_times(
                gen,
                add_mod(ya[peer], yc[peer]),
            ));
        }
        assert(g2_shares_times(shares, gen, ys));
        lemma_combined_scalar_additive(ya, yc);
        lemma_g2_aggregate_of_multiples(gen, a, ya);
        lemma_g2_aggregate_of_multiples(gen, c, yc);
        let ca = combined_scalar(ya);
        let cc = combined_scalar(yc);
        assert(g2_add(g2_times(gen, ca), g2_times(gen, cc)) == g2_times(gen, add_mod(ca, cc)));
    }
}

/// A listing of a nonempty map is nonempty.
proof fn lemma_listing_nonempty<V>(m: Map<u64, V>, s: Seq<(u64, V)>)
    requires
        m.dom().finite(),
        m.len() > 0,
        lists_in_key_order(m, s),
    ensures
        s.len() > 0,
{
    let k = m.dom().choose();
    assert(m.contains_key(k));
}

/// The points of increasing peers, as scalars: each peer's index plus one.
fn peer_scalars(peers: &Vec<u64>) -> (r: Vec<[u8; 32]>)
    requires
        forall|i: int, j: int| 0 <= i < j < peers.len() ==> #[trigger] peers[i] < #[trigger] peers[j],
        forall|i: int| 0 <= i < peers.len() ==> #[trigger] peers[i] < u64::MAX,
    ensures
        r.len() == peers.len(),
        distinct_canonical(r@),
        forall|i: int| 0 <= i < r.len() ==> le_nat(#[trigger] r[i]@) == peers[i] as nat + 1,
{
    let mut r: Vec<[u8; 32]> = Vec::new();
    let mut k: usize = 0;
    while k < peers.len()
        invariant
            k <= peers.len(),
            r.len() == k,
            forall|i: int| 0 <= i < peers.len() ==> #[trigger] peers[i] < u64::MAX,
            forall|i: int| 0 <= i < k ==> le_nat(#[trigger] r[i]@) == peers[i] as nat + 1,
        decreases peers.len() - k,
    {
        let x = scalar_from_u64(peers[k] + 1);
        r.push(x);
        k = k + 1;
    }
    proof {
        assert forall|i: int| 0 <= i < r.len() implies is_canonical(#[trigger] r[i]@) by {
            assert(r[i]@.len() == 32);
        }
        assert forall|i: int, j: int|
            0 <= i < r.len() && 0 <= j < r.len() && i != j implies le_nat(#[trigger] r[i]@)
            != le_nat(#[trigger] r[j]@) by {
            if i < j {
                assert(peers[i] < peers[j]);
            } else {
                assert(peers[j] < peers[i]);
            }
        }
    }
    r
}

/// Combines the exact threshold of valid blinded signature shares, keyed by
/// peer, into a blinded signature. Verifying the shares and supplying exactly
/// the threshold of them is the caller's responsibility. There must be at
/// least one share, and, where there are several, no peer may be `u64::MAX`
/// (its point would overflow).
pub fn aggregate_signature_shares(shares: &BTreeMap<u64, BlindedSignatureShare>) -> (r: BlindedSignature)
    requires
        shares@.len() > 0,
        shares@.len() > 1 ==> forall|peer: u64| #[trigger]
            shares@.contains_key(peer) ==> peer < u64::MAX,
    ensures
        r@ == aggregate_g1(signature_share_entries(shares@)),
        forall|base: Seq<u8>, ys: Map<u64, nat>|
            #[trigger] g1_shares_times(shares@, base, ys) && g1_valid(base) ==> r@ == g1_times(
                base,
                combined_scalar(ys),
            ),
        forall|base: Seq<u8>, f: Seq<int>|
            #[trigger] g1_shares_on(shares@, base, f) && g1_valid(base) && f.len() <= shares@.len()
                ==> r@ == g1_times(base, reduce(eval(f, 0))),
        forall|a: Map<u64, BlindedSignatureShare>, c: Map<u64, BlindedSignatureShare>|
            #[trigger] g1_shares_sum(shares@, a, c) ==> r@ == g1_add(
                aggregate_g1(signature_share_entries(a)),
                aggregate_g1(signature_share_entries(c)),
            ),
{
    // Every share is a multiple of the generator; with it the contract
    // speaks of shares that are sums of others.
    let generator = g1_generator();
    let entries = entries_in_key_order(shares);
    let ghost views = signature_share_entries(shares@);
    proof {
        lemma_listing_nonempty(shares@, entries@);
        lemma_listing_len(shares@, entries@);
    }
    let n = entries.len();
    if n == 1 {
        let share = entries[0].1;
        proof {
            use_type_invariant(&share);
            let peer = entries@[0].0;
            assert(shares@.contains_key(peer));
            assert forall|base: Seq<u8>, ys: Map<u64, nat>|
                #[trigger] g1_shares_times(shares@, base, ys) && g1_valid(base) implies share@
                == g1_times(base, combined_scalar(ys)) by {
                lemma_combined_scalar(shares@, entries@, views, ys);
                lemma_single_peer_scalar(views, ys);
            }
            assert forall|base: Seq<u8>, f: Seq<int>|
                #[trigger] g1_shares_on(shares@, base, f) && g1_valid(base) && f.len()
                    <= shares@.len() implies share@ == g1_times(base, reduce(eval(f, 0))) by {
                lemma_eval_constant(f, peer + 1);
            }
        }
        proof {
            lemma_g1_aggregate_linear(shares@, share@, generator@);
        }
        return BlindedSignature(share.0);
    }
    let mut peers: Vec<u64> = Vec::new();
    let mut points: Vec<[u8; 48]> = Vec::new();
    let mut k: usize = 0;
    while k < n
        invariant
            n == entries.len(),
            n > 1,
            k <= n,
            lists_in_key_order(shares@, entries@),
            forall|peer: u64| #[trigger] shares@.contains_key(peer) ==> peer < u64::MAX,
            views == entries@.map_values(|e: (u64, BlindedSignatureShare)| (e.0, e.1@)),
            peers.len() == k,
            points.len() == k,
            forall|i: int| 0 <= i < k ==> #[trigger] peers[i] == entries[i].0,
            forall|i: int| 0 <= i < k ==> #[trigger] points[i]@ == entries[i].1@,
            forall|i: int| 0 <= i < k ==> g1_valid(#[trigger] points[i]@),
        decreases n - k,
    {
        let (peer, share) = entries[k];
        proof {
            use_type_invariant(&share);
            assert(shares@.contains_key(entries@[k as int].0));
        }
        peers.push(peer);
        points.push(share.0);
        k = k + 1;
    }
    proof {
        assert forall|i: int, j: int| 0 <= i < j < peers.len() implies #[trigger] peers[i]
            < #[trigger] peers[j] by {
            assert(entries@[i].0 < entries@[j].0);
        }
        assert forall|i: int| 0 <= i < peers.len() implies #[trigger] peers[i] < u64::MAX by {
            assert(shares@.contains_key(entries@[i].0));
        }
    }
    let xs = peer_scalars(&peers);
    let lambdas = lagrange_multipliers(&xs);
    let ghost coeffs = lagrange_coefficients(peer_points(views));
    let ghost pts = entry_points(views);
    proof {
        assert(values(xs@) =~= peer_points(views));
        assert(values(lambdas@) =~= coeffs);
    }
    let mut acc = g1_scalar_mul(&points[0], &lambdas[0]);
    proof {
        let peer = entries@[0].0;
        assert(shares@.contains_key(peer));
        assert forall|base: Seq<u8>, ys: Map<u64, nat>|
            #[trigger] g1_shares_times(shares@, base, ys) && g1_valid(base) implies acc@ == g1_times(
            base,
            reduce(weighted_sum(coeffs, peer_values(views, ys), 1)),
        ) by {
            let y = ys[peer];
            let l = le_nat(lambdas[0]@);
            assert(points[0]@ == g1_times(base, y));
            assert(acc@ == g1_times(base, mul_mod(y, l)));
            lemma_small_mod(y, modulus());
            lemma_reduce_step(0, y as int, l);
            assert(peer_values(views, ys)[0] == y as int);
            assert(coeffs[0] == l);
            assert(weighted_sum(coeffs, peer_values(views, ys), 0) == 0);
            assert(weighted_sum(coeffs, peer_values(views, ys), 1) == 0 + l * (y as int));
            lemma_small_mod(0, modulus());
        }
    }
    let mut k: usize = 1;
    while k < n
        invariant
            n == entries.len(),
            n == lambdas.len(),
            n == points.len(),
            1 <= k <= n,
            views == entries@.map_values(|e: (u64, BlindedSignatureShare)| (e.0, e.1@)),
            coeffs == lagrange_coefficients(peer_points(views)),
            values(lambdas@) == coeffs,
            pts == entry_points(views),
            values(xs@) == peer_points(views),
            forall|i: int| 0 <= i < n ==> #[trigger] points[i]@ == entries[i].1@,
            forall|i: int| 0 <= i < n ==> g1_valid(#[trigger] points[i]@),
            forall|i: int|
                0 <= i < n ==> is_canonical(#[trigger] lambdas[i]@) && le_nat(lambdas[i]@)
                    == lagrange_coefficient(values(xs@), i),
            g1_valid(acc@),
            acc@ == g1_combination(coeffs, pts, k as nat),
            lists_in_key_order(shares@, entries@),
            forall|base: Seq<u8>, ys: Map<u64, nat>|
                #[trigger] g1_shares_times(shares@, base, ys) && g1_valid(base) ==> acc@ == g1_times(
                    base,
                    reduce(weighted_sum(coeffs, peer_values(views, ys), k as nat)),
                ),
        decreases n - k,
    {
        let ghost before = acc@;
        let term = g1_scalar_mul(&points[k], &lambdas[k]);
        acc = g1_point_add(&acc, &term);
        proof {
            let peer = entries@[k as int].0;
            assert(shares@.contains_key(peer));
            assert forall|base: Seq<u8>, ys: Map<u64, nat>|
                #[trigger] g1_shares_times(shares@, base, ys) && g1_valid(base) implies acc@
                == g1_times(base, reduce(weighted_sum(coeffs, peer_values(views, ys), (k + 1) as nat)))
                by {
                let y = ys[peer];
                let l = le_nat(lambdas[k as int]@);
                let w = weighted_sum(coeffs, peer_values(views, ys), k as nat);
                assert(points[k as int]@ == g1_times(base, y));
                assert(term@ == g1_times(base, mul_mod(y, l)));
                assert(before == g1_times(base, reduce(w)));
                lemma_small_mod(y, modulus());
                assert(acc@ == g1_times(base, add_mod(reduce(w), mul_mod(reduce(y as int), l))));
                lemma_reduce_step(w, y as int, l);
                assert(peer_values(views, ys)[k as int] == y as int);
                assert(coeffs[k as int] == l);
            }
        }
        k = k + 1;
    }
    proof {
        assert forall|base: Seq<u8>, ys: Map<u64, nat>|
            #[trigger] g1_shares_times(shares@, base, ys) && g1_valid(base) implies acc@
            == g1_times(base, combined_scalar(ys)) by {
            lemma_combined_scalar(shares@, entries@, views, ys);
        }
        assert forall|base: Seq<u8>, f: Seq<int>|
            #[trigger] g1_shares_on(shares@, base, f) && g1_valid(base) && f.len()
                <= shares@.len() implies acc@ == g1_times(base, reduce(eval(f, 0))) by {
            let ys = Map::new(
                |peer: u64| shares@.contains_key(peer),
                |peer: u64| reduce(eval(f, peer + 1)),
            );
            assert forall|peer: u64| #[trigger] shares@.contains_key(peer) implies ys.contains_key(
                peer,
            ) && ys[peer] < modulus() && shares@[peer]@ == g1_times(base, ys[peer]) by {}
            assert(g1_shares_times(shares@, base, ys));
            let yv = peer_values(views, ys);
            let fv = values_at(f, values(xs@));
            assert forall|i: int| 0 <= i < n implies #[trigger] yv[i] % (modulus() as int) == fv[i]
                % (modulus() as int) by {
                let peer = entries@[i].0;
                assert(shares@.contains_key(peer));
                lemma_mod_twice(eval(f, peer + 1), modulus() as int);
            }
            lemma_weighted_sum_congruent(coeffs, yv, fv, n as nat);
            assert(f.len() <= xs.len());
            lemma_mod_twice(weighted_sum(coeffs, yv, n as nat), modulus() as int);
        }
    }
    proof {
        lemma_g1_aggregate_linear(shares@, acc@, generator@);
    }
    BlindedSignature(acc)
}

/// Combines public key shares, keyed by peer, into the aggregate public key,
/// as the signature shares are combined. There must be at least one share,
/// and, where there are several, no peer may be `u64::MAX`.
pub fn aggregate_public_key_shares(shares: &BTreeMap<u64, PublicKeyShare>) -> (r: AggregatePublicKey)
    requires
        shares@.len() > 0,
        shares@.len() > 1 ==> forall|peer: u64| #[trigger]
            shares@.contains_key(peer) ==> peer < u64::MAX,
    ensures
        r@ == aggregate_g2(public_key_share_entries(shares@)),
        forall|base: Seq<u8>, ys: Map<u64, nat>|
            #[trigger] g2_shares_times(shares@, base, ys) && g2_valid(base) ==> r@ == g2_times(
                base,
                combined_scalar(ys),
            ),
        forall|base: Seq<u8>, f: Seq<int>|
            #[trigger] g2_shares_on(shares@, base, f) && g2_valid(base) && f.len() <= shares@.len()
                ==> r@ == g2_times(base, reduce(eval(f, 0))),
        forall|a: Map<u64, PublicKeyShare>, c: Map<u64, PublicKeyShare>|
            #[trigger] g2_shares_sum(shares@, a, c) ==> r@ == g2_add(
                aggregate_g2(public_key_share_entries(a)),
                aggregate_g2(public_key_share_entries(c)),
            ),
{
    // Every share is a multiple of the generator; with it the contract
    // speaks of shares that are sums of others.
    let generator = g2_generator();
    let entries = entries_in_key_order(shares);
    let ghost views = public_key_share_entries(shares@);
    proof {
        lemma_listing_nonempty(shares@, entries@);
        lemma_listing_len(shares@, entries@);
    }
    let n = entries.len();
    if n == 1 {
        let share = entries[0].1;
        proof {
            use_type_invariant(&share);
            let peer = entries@[0].0;
            assert(shares@.contains_key(peer));
            assert forall|base: Seq<u8>, ys: Map<u64, nat>|
                #[trigger] g2_shares_times(shares@, base, ys) && g2_valid(base) implies share@
                == g2_times(base, combined_scalar(ys)) by {
                lemma_combined_scalar(shares@, entries@, views, ys);
                lemma_single_peer_scalar(views, ys);
            }
            assert forall|base: Seq<u8>, f: Seq<int>|
                #[trigger] g2_shares_on(shares@, base, f) && g2_valid(base) && f.len()
                    <= shares@.len() implies share@ == g2_times(base, reduce(eval(f, 0))) by {
                lemma_eval_constant(f, peer + 1);
            }
        }
        proof {
            lemma_g2_aggregate_linear(shares@, share@, generator@);
        }
        return AggregatePublicKey(share.0);
    }
    let mut peers: Vec<u64> = Vec::new();
    let mut points: Vec<[u8; 96]> = Vec::new();
    let mut k: usize = 0;
    while k < n
        invariant
            n == entries.len(),
            n > 1,
            k <= n,
            lists_in_key_order(shares@, entries@),
            forall|peer: u64| #[trigger] shares@.contains_key(peer) ==> peer < u64::MAX,
            views == entries@.map_values(|e: (u64, PublicKeyShare)| (e.0, e.1@)),
            peers.len() == k,
            points.len() == k,
            forall|i: int| 0 <= i < k ==> #[trigger] peers[i] == entries[i].0,
            forall|i: int| 0 <= i < k ==> #[trigger] points[i]@ == entries[i].1@,
            forall|i: int| 0 <= i < k ==> g2_valid(#[trigger] points[i]@),
        decreases n - k,
    {
        let (peer, share) = entries[k];
        proof {
            use_type_invariant(&share);
            assert(shares@.contains_key(entries@[k as int].0));
        }
        peers.push(peer);
        points.push(share.0);
        k = k + 1;
    }
    proof {
        assert forall|i: int, j: int| 0 <= i < j < peers.len() implies #[trigger] peers[i]
            < #[trigger] peers[j] by {
            assert(entries@[i].0 < entries@[j].0);
        }
        assert forall|i: int| 0 <= i < peers.len() implies #[trigger] peers[i] < u64::MAX by {
            assert(shares@.contains_key(entries@[i].0));
        }
    }
    let xs = peer_scalars(&peers);
    let lambdas = lagrange_multipliers(&xs);
    let ghost coeffs = lagrange_coefficients(peer_points(views));
    let ghost pts = entry_points(views);
    proof {
        assert(values(xs@) =~= peer_points(views));
        assert(values(lambdas@) =~= coeffs);
    }
    let mut acc = g2_scalar_mul(&points[0], &lambdas[0]);
    proof {
        let peer = entries@[0].0;
        assert(shares@.contains_key(peer));
        assert forall|base: Seq<u8>, ys: Map<u64, nat>|
            #[trigger] g2_shares_times(shares@, base, ys) && g2_valid(base) implies acc@ == g2_times(
            base,
            reduce(weighted_sum(coeffs, peer_values(views, ys), 1)),
        ) by {
            let y = ys[peer];
            let l = le_nat(lambdas[0]@);
            assert(points[0]@ == g2_times(base, y));
            assert(acc@ == g2_times(base, mul_mod(y, l)));
            lemma_small_mod(y, modulus());
            lemma_reduce_step(0, y as int, l);
            assert(peer_values(views, ys)[0] == y as int);
            assert(coeffs[0] == l);
            assert(weighted_sum(coeffs, peer_values(views, ys), 0) == 0);
            assert(weighted_sum(coeffs, peer_values(views, ys), 1) == 0 + l * (y as int));
            lemma_small_mod(0, modulus());
        }
    }
    let mut k: usize = 1;
    while k < n
        invariant
            n == entries.len(),
            n == lambdas.len(),
            n == points.len(),
            1 <= k <= n,
            views == entries@.map_values(|e: (u64, PublicKeyShare)| (e.0, e.1@)),
            coeffs == lagrange_coefficients(peer_points(views)),
            values(lambdas@) == coeffs,
            pts == entry_points(views),
            values(xs@) == peer_points(views),
            forall|i: int| 0 <= i < n ==> #[trigger] points[i]@ == entries[i].1@,
            forall|i: int| 0 <= i < n ==> g2_valid(#[trigger] points[i]@),
            forall|i: int|
                0 <= i < n ==> is_canonical(#[trigger] lambdas[i]@) && le_nat(lambdas[i]@)
                    == lagrange_coefficient(values(xs@), i),
            g2_valid(acc@),
            acc@ == g2_combination(coeffs, pts, k as nat),
            lists_in_key_order(shares@, entries@),
            forall|base: Seq<u8>, ys: Map<u64, nat>|
                #[trigger] g2_shares_times(shares@, base, ys) && g2_valid(base) ==> acc@ == g2_times(
                    base,
                    reduce(weighted_sum(coeffs, peer_values(views, ys), k as nat)),
                ),
        decreases n - k,
    {
        let ghost before = acc@;
        let term = g2_scalar_mul(&points[k], &lambdas[k]);
        acc = g2_point_add(&acc, &term);
        proof {
            let peer = entries@[k as int].0;
            assert(shares@.contains_key(peer));
            assert forall|base: Seq<u8>, ys: Map<u64, nat>|
                #[trigger] g2_shares_times(shares@, base, ys) && g2_valid(base) implies acc@
                == g2_times(base, reduce(weighted_sum(coeffs, peer_values(views, ys), (k + 1) as nat)))
                by {
                let y = ys[peer];
                let l = le_nat(lambdas[k as int]@);
                let w = weighted_sum(coeffs, peer_values(views, ys), k as nat);
                assert(points[k as int]@ == g2_times(base, y));
                assert(term@ == g2_times(base, mul_mod(y, l)));
                assert(before == g2_times(base, reduce(w)));
                lemma_small_mod(y, modulus());
                assert(acc@ == g2_times(base, add_mod(reduce(w), mul_mod(reduce(y as int), l))));
                lemma_reduce_step(w, y as int, l);
                assert(peer_values(views, ys)[k as int] == y as int);
                assert(coeffs[k as int] == l);
            }
        }
        k = k + 1;
    }
    proof {
        assert forall|base: Seq<u8>, ys: Map<u64, nat>|
            #[trigger] g2_shares_times(shares@, base, ys) && g2_valid(base) implies acc@
            == g2_times(base, combined_scalar(ys)) by {
            lemma_combined_scalar(shares@, entries@, views, ys);
        }
        assert forall|base: Seq<u8>, f: Seq<int>|
            #[trigger] g2_shares_on(shares@, base, f) && g2_valid(base) && f.len()
                <= shares@.len() implies acc@ == g2_times(base, reduce(eval(f, 0))) by {
            let ys = Map::new(
                |peer: u64| shares@.contains_key(peer),
                |peer: u64| reduce(eval(f, peer + 1)),
            );
            assert forall|peer: u64| #[trigger] shares@.contains_key(peer) implies ys.contains_key(
                peer,
            ) && ys[peer] < modulus() && shares@[peer]@ == g2_times(base, ys[peer]) by {}
            assert(g2_shares_times(shares@, base, ys));
            let yv = peer_values(views, ys);
            let fv = values_at(f, values(xs@));
            assert forall|i: int| 0 <= i < n implies #[trigger] yv[i] % (modulus() as int) == fv[i]
                % (modulus() as int) by {
                let peer = entries@[i].0;
                assert(shares@.contains_key(peer));
                lemma_mod_twice(eval(f, peer + 1), modulus() as int);
            }
            lemma_weighted_sum_congruent(coeffs, yv, fv, n as nat);
            assert(f.len() <= xs.len());
            lemma_mod_twice(weighted_sum(coeffs, yv, n as nat), modulus() as int);
        }
    }
    proof {
        lemma_g2_aggregate_linear(shares@, acc@, generator@);
    }
    AggregatePublicKey(acc)
}

} // verus!

use std::collections::BTreeMap;

use bitcoin::hashes::sha256;
use bitcoin::hashes::Hash as _;
use bls12_381::{G2Affine, G2Projective, Scalar};
use group::ff::Field;
use rand::SeedableRng;
use rand_chacha::ChaChaRng;
use sha3::Digest;

use tbs::lagrange::lagrange_multipliers;
use tbs::{
    aggregate_public_key_shares, aggregate_signature_shares, blind_message, derive_pk_share,
    sign_message, unblind_signature, verify, verify_blinded_signature, verify_signature_share,
    AggregatePublicKey, BlindedSignature, BlindedSignatureShare, BlindingKey, Message,
    PublicKeyShare,
    SecretKeyShare,
};

fn coefficient(index: u64) -> Scalar {
    Scalar::random(&mut ChaChaRng::from_seed(
        *sha256::Hash::hash(&index.to_be_bytes()).as_byte_array(),
    ))
}

fn dealer_agg_pk() -> AggregatePublicKey {
    let point = G2Affine::from(G2Projective::generator() * coefficient(0));
    AggregatePublicKey::from_compressed(point.to_compressed()).unwrap()
}

fn dealer_pk(threshold: u64, peer: u64) -> PublicKeyShare {
    derive_pk_share(&dealer_sk(threshold, peer))
}

fn dealer_sk(threshold: u64, peer: u64) -> SecretKeyShare {
    let x = Scalar::from(peer + 1);

    // We evaluate the scalar polynomial of degree threshold - 1 at the point x
    // using the Horner schema.

    let y = (0..threshold)
        .map(coefficient)
        .rev()
        .reduce(|accumulator, c| accumulator * x + c)
        .expect("We have at least one coefficient");

    SecretKeyShare::from_bytes(y.to_bytes()).unwrap()
}

#[test]
fn test_roundtrip() {
    const PEERS: u64 = 4;
    const THRESHOLD: u64 = 3;

    let message = Message::from_bytes(b"Hello World!");
    let blinding_key = BlindingKey::random();

    let b_message = blind_message(message, blinding_key);

    for peer in 0..PEERS {
        assert!(verify_signature_share(
            b_message,
            sign_message(b_message, dealer_sk(THRESHOLD, peer)),
            dealer_pk(THRESHOLD, peer)
        ));
    }

    let signature_shares = (0..THRESHOLD)
        .map(|peer| (peer, sign_message(b_message, dealer_sk(THRESHOLD, peer))))
        .collect::<BTreeMap<u64, BlindedSignatureShare>>();

    let signature = aggregate_signature_shares(&signature_shares);

    let signature = unblind_signature(blinding_key, signature);

    assert!(verify(message, signature, dealer_agg_pk()));
}

#[test]
fn test_blindingkey_fingerprint_multiple_calls_same_result() {
    let bkey = BlindingKey::random();
    assert_eq!(bkey.fingerprint(), bkey.fingerprint());
}

#[test]
fn test_blindingkey_fingerprint_ne_scalar() {
    let bkey = BlindingKey::random();
    assert_ne!(bkey.fingerprint(), bkey.to_bytes());
}

fn scalar_bytes(n: u64) -> [u8; 32] {
    Scalar::from(n).to_bytes()
}

#[test]
fn lagrange_multipliers_of_one_two_three() {
    // At zero: l1 = 2*3/((2-1)(3-1)) = 3, l2 = 1*3/((1-2)(3-2)) = -3, l3 = 1*2/((1-3)(2-3)) = 1.
    let xs = vec![scalar_bytes(1), scalar_bytes(2), scalar_bytes(3)];
    let ls = lagrange_multipliers(&xs);
    assert_eq!(ls.len(), 3);
    assert_eq!(ls[0], scalar_bytes(3));
    assert_eq!(ls[1], (-Scalar::from(3u64)).to_bytes());
    assert_eq!(ls[2], scalar_bytes(1));
}

#[test]
fn lagrange_multipliers_of_nothing() {
    assert!(lagrange_multipliers(&Vec::new()).is_empty());
}

#[test]
fn lagrange_multipliers_interpolate_at_zero() {
    // f(x) = 7 + 5x: the multipliers of the points 2 and 5 recover f(0).
    let xs = vec![scalar_bytes(2), scalar_bytes(5)];
    let ls = lagrange_multipliers(&xs);
    let f = |x: u64| Scalar::from(7u64) + Scalar::from(5u64) * Scalar::from(x);
    let l0 = Scalar::from_bytes(&ls[0]).unwrap();
    let l1 = Scalar::from_bytes(&ls[1]).unwrap();
    assert_eq!(l0 * f(2) + l1 * f(5), Scalar::from(7u64));
}

#[test]
fn aggregate_of_public_key_shares_is_the_dealers_key() {
    let shares = (0..4u64)
        .filter(|peer| *peer != 1)
        .map(|peer| (peer, dealer_pk(3, peer)))
        .collect::<BTreeMap<u64, PublicKeyShare>>();
    assert_eq!(aggregate_public_key_shares(&shares), dealer_agg_pk());
}

#[test]
fn aggregate_of_one_share_is_that_share() {
    let msg = blind_message(Message::from_bytes(b"one"), BlindingKey::random());
    let share = sign_message(msg, dealer_sk(1, 0));
    let mut shares = BTreeMap::new();
    shares.insert(7u64, share);
    assert_eq!(aggregate_signature_shares(&shares).to_compressed(), share.to_compressed());
}

#[test]
fn aggregate_signature_verifies_under_aggregate_key() {
    let msg = blind_message(Message::from_bytes(b"agg"), BlindingKey::random());
    let peers = [0u64, 2, 3];
    let sigs = peers
        .iter()
        .map(|p| (*p, sign_message(msg, dealer_sk(3, *p))))
        .collect::<BTreeMap<_, _>>();
    let pks = peers
        .iter()
        .map(|p| (*p, dealer_pk(3, *p)))
        .collect::<BTreeMap<_, _>>();
    let sig = aggregate_signature_shares(&sigs);
    assert!(verify_blinded_signature(msg, sig, aggregate_public_key_shares(&pks)));
}

#[test]
fn signature_share_fails_under_another_key() {
    let msg = blind_message(Message::from_bytes(b"x"), BlindingKey::random());
    let sig = sign_message(msg, dealer_sk(3, 0));
    assert!(verify_signature_share(msg, sig, dealer_pk(3, 0)));
    assert!(!verify_signature_share(msg, sig, dealer_pk(3, 1)));
}

#[test]
fn unblinded_signature_fails_for_another_message() {
    let key = BlindingKey::random();
    let message = Message::from_bytes(b"a");
    let other = Message::from_bytes(b"b");
    let sk = dealer_sk(1, 0);
    let agg = aggregate_public_key_shares(&[(0u64, derive_pk_share(&sk))].into_iter().collect());
    let blind = blind_message(message, key);
    let mut shares = BTreeMap::new();
    shares.insert(0u64, sign_message(blind, sk));
    let sig = unblind_signature(key, aggregate_signature_shares(&shares));
    assert!(verify(message, sig, agg));
    assert!(!verify(other, sig, agg));
}

#[test]
fn blinding_changes_the_message() {
    let message = Message::from_bytes(b"blind me");
    let key = BlindingKey::random();
    let blinded = blind_message(message, key);
    assert_ne!(blinded.to_compressed(), message.to_compressed());
    let sig = sign_message(blinded, dealer_sk(1, 0));
    assert_ne!(sig.to_compressed(), blinded.to_compressed());
}

#[test]
fn message_hashing_is_deterministic_and_tagged() {
    let a = Message::from_bytes(b"Hello World!");
    let b = Message::from_bytes(b"Hello World!");
    let c = Message::from_bytes(b"Hello World?");
    assert_eq!(a, b);
    assert_ne!(a, c);
}

#[test]
fn public_key_share_is_generator_times_secret() {
    let sk = SecretKeyShare::from_bytes(scalar_bytes(42)).unwrap();
    let expected = G2Affine::from(G2Projective::generator() * Scalar::from(42u64)).to_compressed();
    assert_eq!(derive_pk_share(&sk).to_compressed(), expected);
    let one = SecretKeyShare::from_bytes(scalar_bytes(1)).unwrap();
    assert_eq!(derive_pk_share(&one).to_compressed(), G2Affine::generator().to_compressed());
}

#[test]
fn invalid_encodings_are_refused() {
    assert!(SecretKeyShare::from_bytes([0xff; 32]).is_none());
    assert!(BlindingKey::from_bytes([0xff; 32]).is_none());
    assert!(Message::from_compressed([0x12; 48]).is_none());
    assert!(PublicKeyShare::from_compressed([0x12; 96]).is_none());
    assert!(SecretKeyShare::from_bytes(scalar_bytes(5)).is_some());
}

#[test]
fn blinding_key_strings_show_the_fingerprint() {
    let key = BlindingKey::random();
    let hex = key.to_string();
    assert_eq!(hex.len(), 64);
    assert_eq!(hex, hex::encode(key.fingerprint()));
    assert_eq!(key.debug_string(), format!("BlindingKey({hex})"));
    assert!(!key.is_zero());
    assert!(BlindingKey::from_bytes([0; 32]).unwrap().is_zero());
}

#[test]
fn fingerprint_is_tagged_sha3() {
    let key = BlindingKey::from_bytes(scalar_bytes(9)).unwrap();
    let mut engine = sha3::Sha3_256::new();
    engine.update(b"TBS_KFP24_");
    engine.update(scalar_bytes(9));
    let expected: [u8; 32] = engine.finalize().into();
    assert_eq!(key.fingerprint(), expected);
}

#[test]
fn aggregate_of_any_threshold_subset_is_the_same() {
    let msg = blind_message(Message::from_bytes(b"subset"), BlindingKey::random());
    let shares_of = |peers: &[u64]| {
        peers
            .iter()
            .map(|p| (*p, sign_message(msg, dealer_sk(3, *p))))
            .collect::<BTreeMap<u64, BlindedSignatureShare>>()
    };
    let a = aggregate_signature_shares(&shares_of(&[0, 1, 2]));
    let b = aggregate_signature_shares(&shares_of(&[1, 2, 3]));
    assert_eq!(a, b);
    let point = bls12_381::G1Affine::from_compressed(&msg.to_compressed()).unwrap();
    let expected = bls12_381::G1Affine::from(point * coefficient(0)).to_compressed();
    assert_eq!(a.to_compressed(), expected);
}

#[test]
fn unblinding_undoes_blinding() {
    let message = Message::from_bytes(b"undo");
    let key = BlindingKey::from_bytes(scalar_bytes(11)).unwrap();
    let sk = dealer_sk(1, 0);
    let mut shares = BTreeMap::new();
    shares.insert(0u64, sign_message(blind_message(message, key), sk));
    let sig = unblind_signature(key, aggregate_signature_shares(&shares));
    let point = bls12_381::G1Affine::from_compressed(&message.to_compressed()).unwrap();
    let secret = Scalar::from_bytes(&sk.to_bytes()).unwrap();
    assert_eq!(sig.to_compressed(), bls12_381::G1Affine::from(point * secret).to_compressed());
}

#[test]
fn aggregate_of_one_share_at_the_largest_peer() {
    let msg = blind_message(Message::from_bytes(b"max"), BlindingKey::random());
    let share = sign_message(msg, dealer_sk(1, 0));
    let mut shares = BTreeMap::new();
    shares.insert(u64::MAX, share);
    assert_eq!(aggregate_signature_shares(&shares), BlindedSignature::from_compressed(share.to_compressed()).unwrap());
}

#[test]
fn aggregate_of_shares_on_one_plus_x_plus_x_squared_is_the_generator() {
    let mut shares = BTreeMap::new();
    for (peer, value) in [(0u64, 3u64), (1, 7), (2, 13)] {
        let sk = SecretKeyShare::from_bytes(scalar_bytes(value)).unwrap();
        shares.insert(peer, derive_pk_share(&sk));
    }
    assert_eq!(
        aggregate_public_key_shares(&shares).to_compressed(),
        G2Affine::generator().to_compressed()
    );
}

#[test]
fn aggregates_of_unrelated_shares_still_verify() {
    let msg = blind_message(Message::from_bytes(b"any secrets"), BlindingKey::random());
    let secrets = [(0u64, 11u64), (3, 5), (9, 1000)];
    let mut sigs = BTreeMap::new();
    let mut pks = BTreeMap::new();
    for (peer, value) in secrets {
        let sk = SecretKeyShare::from_bytes(scalar_bytes(value)).unwrap();
        sigs.insert(peer, sign_message(msg, sk));
        pks.insert(peer, derive_pk_share(&sk));
    }
    let sig = aggregate_signature_shares(&sigs);
    let pk = aggregate_public_key_shares(&pks);
    assert!(verify_blinded_signature(msg, sig, pk));
    let other = blind_message(Message::from_bytes(b"other"), BlindingKey::random());
    assert!(!verify_blinded_signature(other, sig, pk));
}

#[test]
fn lagrange_multipliers_do_not_depend_on_the_order_of_the_points() {
    let xs = vec![scalar_bytes(1), scalar_bytes(2), scalar_bytes(3)];
    let permuted = vec![scalar_bytes(3), scalar_bytes(1), scalar_bytes(2)];
    let ls = lagrange_multipliers(&xs);
    let lp = lagrange_multipliers(&permuted);
    assert_eq!(lp[0], ls[2]);
    assert_eq!(lp[1], ls[0]);
    assert_eq!(lp[2], ls[1]);
}

#[test]
fn aggregation_is_linear_in_the_shares() {
    let msg = blind_message(Message::from_bytes(b"linear"), BlindingKey::random());
    let point = bls12_381::G1Affine::from_compressed(&msg.to_compressed()).unwrap();
    let peers = [0u64, 2, 5];
    let mut a = BTreeMap::new();
    let mut c = BTreeMap::new();
    let mut s = BTreeMap::new();
    for (i, peer) in peers.iter().enumerate() {
        let u = Scalar::from(3 + i as u64);
        let v = Scalar::from(100 + 7 * i as u64);
        let pu = bls12_381::G1Affine::from(point * u);
        let pv = bls12_381::G1Affine::from(point * v);
        let sum = bls12_381::G1Affine::from(bls12_381::G1Projective::from(pu) + pv);
        a.insert(*peer, BlindedSignatureShare::from_compressed(pu.to_compressed()).unwrap());
        c.insert(*peer, BlindedSignatureShare::from_compressed(pv.to_compressed()).unwrap());
        s.insert(*peer, BlindedSignatureShare::from_compressed(sum.to_compressed()).unwrap());
    }
    let agg_a = bls12_381::G1Affine::from_compressed(&aggregate_signature_shares(&a).to_compressed()).unwrap();
    let agg_c = bls12_381::G1Affine::from_compressed(&aggregate_signature_shares(&c).to_compressed()).unwrap();
    let expected = bls12_381::G1Affine::from(bls12_381::G1Projective::from(agg_a) + agg_c);
    assert_eq!(aggregate_signature_shares(&s).to_compressed(), expected.to_compressed());
}

#[test]
fn public_key_aggregation_is_linear_in_the_shares() {
    let peers = [1u64, 4];
    let mut a = BTreeMap::new();
    let mut c = BTreeMap::new();
    let mut s = BTreeMap::new();
    for (i, peer) in peers.iter().enumerate() {
        let pu = G2Affine::from(G2Projective::generator() * Scalar::from(5 + i as u64));
        let pv = G2Affine::from(G2Projective::generator() * Scalar::from(40 + 3 * i as u64));
        let sum = G2Affine::from(G2Projective::from(pu) + pv);
        a.insert(*peer, PublicKeyShare::from_compressed(pu.to_compressed()).unwrap());
        c.insert(*peer, PublicKeyShare::from_compressed(pv.to_compressed()).unwrap());
        s.insert(*peer, PublicKeyShare::from_compressed(sum.to_compressed()).unwrap());
    }
    let agg_a = G2Affine::from_compressed(&aggregate_public_key_shares(&a).to_compressed()).unwrap();
    let agg_c = G2Affine::from_compressed(&aggregate_public_key_shares(&c).to_compressed()).unwrap();
    let expected = G2Affine::from(G2Projective::from(agg_a) + agg_c);
    assert_eq!(aggregate_public_key_shares(&s).to_compressed(), expected.to_compressed());
}

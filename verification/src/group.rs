//! The groups G1 and G2 of BLS12-381, held as compressed encodings, their
//! scalar multiplication and addition, and the pairing into GT.
use crate::scalar::{add_mod, is_canonical, le_nat, modulus, mul_mod};
use vstd::prelude::*;

verus! {

/// `bls12_381::Gt`, an element of the pairing's target group.
#[verifier::external_type_specification]
#[verifier::external_body]
pub struct ExGt(bls12_381::Gt);

/// Whether `G1Affine::from_compressed` accepts the 48 bytes: they encode a
/// point of the prime-order subgroup G1.
pub uninterp spec fn g1_valid(bytes: Seq<u8>) -> bool;

/// The compressed encoding of `point * scalar` in G1, for the encoding of a
/// point and the value of a scalar.
pub uninterp spec fn g1_mul(point: Seq<u8>, scalar: nat) -> Seq<u8>;

/// The compressed encoding of `a + b` in G1.
pub uninterp spec fn g1_add(a: Seq<u8>, b: Seq<u8>) -> Seq<u8>;

/// Whether `G2Affine::from_compressed` accepts the 96 bytes: they encode a
/// point of the prime-order subgroup G2.
pub uninterp spec fn g2_valid(bytes: Seq<u8>) -> bool;

/// The compressed encoding of `point * scalar` in G2.
pub uninterp spec fn g2_mul(point: Seq<u8>, scalar: nat) -> Seq<u8>;

/// The compressed encoding of `a + b` in G2.
pub uninterp spec fn g2_add(a: Seq<u8>, b: Seq<u8>) -> Seq<u8>;

/// The pairing `e(p, q)` of a G1 point and a G2 point, given by their
/// compressed encodings.
pub uninterp spec fn pairing_of(p: Seq<u8>, q: Seq<u8>) -> bls12_381::Gt;

/// `point * a` in G1: the point itself when `a` is one, else the named
/// product.
pub open spec fn g1_times(point: Seq<u8>, a: nat) -> Seq<u8> {
    if a == 1 {
        point
    } else {
        g1_mul(point, a)
    }
}

/// `point * a` in G2: the point itself when `a` is one, else the named
/// product.
pub open spec fn g2_times(point: Seq<u8>, a: nat) -> Seq<u8> {
    if a == 1 {
        point
    } else {
        g2_mul(point, a)
    }
}

/// The compressed encoding of the identity of G1 (the point at infinity).
pub open spec fn g1_identity_encoding() -> Seq<u8> {
    seq![0xc0u8] + Seq::new(47, |i: int| 0u8)
}

/// The compressed encoding of the identity of G2 (the point at infinity).
pub open spec fn g2_identity_encoding() -> Seq<u8> {
    seq![0xc0u8] + Seq::new(95, |i: int| 0u8)
}

/// The compressed encoding of the fixed generator of G1
/// (`G1Affine::generator()`).
pub open spec fn g1_generator_encoding() -> Seq<u8> {
    seq![
        0x97u8, 0xf1u8, 0xd3u8, 0xa7u8, 0x31u8, 0x97u8, 0xd7u8, 0x94u8, 0x26u8, 0x95u8, 0x63u8, 0x8cu8,
        0x4fu8, 0xa9u8, 0xacu8, 0x0fu8, 0xc3u8, 0x68u8, 0x8cu8, 0x4fu8, 0x97u8, 0x74u8, 0xb9u8, 0x05u8,
        0xa1u8, 0x4eu8, 0x3au8, 0x3fu8, 0x17u8, 0x1bu8, 0xacu8, 0x58u8, 0x6cu8, 0x55u8, 0xe8u8, 0x3fu8,
        0xf9u8, 0x7au8, 0x1au8, 0xefu8, 0xfbu8, 0x3au8, 0xf0u8, 0x0au8, 0xdbu8, 0x22u8, 0xc6u8, 0xbbu8,
    ]
}

/// `gen` generates G1, a cyclic group of prime order `q`, and its multiples
/// behave as their exponents modulo `q` do: every G1 point is `gen * t` for
/// some `t` below `q`, `gen * u + gen * v` is `gen * (u + v mod q)`, and
/// `(gen * u) * s` is `gen * (u * s mod q)`.
#[verifier::opaque]
pub open spec fn g1_generates(gen: Seq<u8>) -> bool {
    &&& forall|p: Seq<u8>| #[trigger]
        g1_valid(p) ==> exists|t: nat| t < modulus() && p == #[trigger] g1_times(gen, t)
    &&& forall|u: nat, v: nat|
        u < modulus() && v < modulus() ==> #[trigger] g1_add(g1_times(gen, u), g1_times(gen, v))
            == g1_times(gen, add_mod(u, v))
    &&& forall|u: nat, s: nat|
        u < modulus() && s < modulus() ==> #[trigger] g1_times(g1_times(gen, u), s) == g1_times(
            gen,
            mul_mod(u, s),
        )
}

/// `gen` generates G2, as `g1_generates` says of G1.
#[verifier::opaque]
pub open spec fn g2_generates(gen: Seq<u8>) -> bool {
    &&& forall|p: Seq<u8>| #[trigger]
        g2_valid(p) ==> exists|t: nat| t < modulus() && p == #[trigger] g2_times(gen, t)
    &&& forall|u: nat, v: nat|
        u < modulus() && v < modulus() ==> #[trigger] g2_add(g2_times(gen, u), g2_times(gen, v))
            == g2_times(gen, add_mod(u, v))
    &&& forall|u: nat, s: nat|
        u < modulus() && s < modulus() ==> #[trigger] g2_times(g2_times(gen, u), s) == g2_times(
            gen,
            mul_mod(u, s),
        )
}

/// The compressed encoding of the fixed generator of G2
/// (`G2Affine::generator()`).
pub open spec fn g2_generator_encoding() -> Seq<u8> {
    seq![
        0x93u8, 0xe0u8, 0x2bu8, 0x60u8, 0x52u8, 0x71u8, 0x9fu8, 0x60u8, 0x7du8, 0xacu8, 0xd3u8, 0xa0u8,
        0x88u8, 0x27u8, 0x4fu8, 0x65u8, 0x59u8, 0x6bu8, 0xd0u8, 0xd0u8, 0x99u8, 0x20u8, 0xb6u8, 0x1au8,
        0xb5u8, 0xdau8, 0x61u8, 0xbbu8, 0xdcu8, 0x7fu8, 0x50u8, 0x49u8, 0x33u8, 0x4cu8, 0xf1u8, 0x12u8,
        0x13u8, 0x94u8, 0x5du8, 0x57u8, 0xe5u8, 0xacu8, 0x7du8, 0x05u8, 0x5du8, 0x04u8, 0x2bu8, 0x7eu8,
        0x02u8, 0x4au8, 0xa2u8, 0xb2u8, 0xf0u8, 0x8fu8, 0x0au8, 0x91u8, 0x26u8, 0x08u8, 0x05u8, 0x27u8,
        0x2du8, 0xc5u8, 0x10u8, 0x51u8, 0xc6u8, 0xe4u8, 0x7au8, 0xd4u8, 0xfau8, 0x40u8, 0x3bu8, 0x02u8,
        0xb4u8, 0x51u8, 0x0bu8, 0x64u8, 0x7au8, 0xe3u8, 0xd1u8, 0x77u8, 0x0bu8, 0xacu8, 0x03u8, 0x26u8,
        0xa8u8, 0x05u8, 0xbbu8, 0xefu8, 0xd4u8, 0x80u8, 0x56u8, 0xc8u8, 0xc1u8, 0x21u8, 0xbdu8, 0xb8u8,
    ]
}

/// `G1Affine::from_compressed`, asked whether it succeeds.
#[verifier::external_body]
pub(crate) fn g1_is_valid(bytes: &[u8; 48]) -> (r: bool)
    ensures
        r == g1_valid(bytes@),
{
    bool::from(bls12_381::G1Affine::from_compressed(bytes).is_some())
}

/// `G2Affine::from_compressed`, asked whether it succeeds.
#[verifier::external_body]
pub(crate) fn g2_is_valid(bytes: &[u8; 96]) -> (r: bool)
    ensures
        r == g2_valid(bytes@),
{
    bool::from(bls12_381::G2Affine::from_compressed(bytes).is_some())
}

/// `G1Affine * Scalar` (then `to_affine` and `to_compressed`). Claims that the
/// result is the point itself when the scalar is one and is named by `g1_mul`
/// otherwise, that it is again a G1 point, and, as G1 is a
/// group of prime order `q`, that multiplying `base * a` by the scalar `s`
/// gives `base * (a * s mod q)`.
#[verifier::external_body]
pub(crate) fn g1_scalar_mul(point: &[u8; 48], scalar: &[u8; 32]) -> (r: [u8; 48])
    requires
        g1_valid(point@),
        is_canonical(scalar@),
    ensures
        r@ == if le_nat(scalar@) == 1 {
            point@
        } else {
            g1_mul(point@, le_nat(scalar@))
        },
        g1_valid(r@),
        forall|base: Seq<u8>, a: nat|
            #![trigger g1_times(base, a)]
            g1_valid(base) && a < modulus() && point@ == g1_times(base, a) ==> r@ == g1_times(
                base,
                mul_mod(a, le_nat(scalar@)),
            ),
{
    let p = bls12_381::G1Affine::from_compressed(point).unwrap();
    let s = bls12_381::Scalar::from_bytes(scalar).unwrap();
    bls12_381::G1Affine::from(p * s).to_compressed()
}

/// `G1Projective + G1Projective` (then `to_affine` and `to_compressed`).
/// Claims that the result is named by `g1_add` and is again a G1 point, and,
/// as G1 is a group of prime order `q`, that `base * u + base * v` is
/// `base * (u + v mod q)`.
#[verifier::external_body]
pub(crate) fn g1_point_add(a: &[u8; 48], b: &[u8; 48]) -> (r: [u8; 48])
    requires
        g1_valid(a@),
        g1_valid(b@),
    ensures
        r@ == g1_add(a@, b@),
        g1_valid(r@),
        forall|base: Seq<u8>, u: nat, v: nat|
            #![trigger g1_times(base, u), g1_times(base, v)]
            g1_valid(base) && u < modulus() && v < modulus() && a@ == g1_times(base, u) && b@
                == g1_times(base, v) ==> r@ == g1_times(base, add_mod(u, v)),
{
    let pa = bls12_381::G1Projective::from(bls12_381::G1Affine::from_compressed(a).unwrap());
    let pb = bls12_381::G1Projective::from(bls12_381::G1Affine::from_compressed(b).unwrap());
    bls12_381::G1Affine::from(pa + pb).to_compressed()
}

/// `G2Affine * Scalar` (then `to_affine` and `to_compressed`). Claims that the
/// result is the point itself when the scalar is one and is named by `g2_mul`
/// otherwise, that it is again a G2 point, and, as G2 is a
/// group of prime order `q`, that multiplying `base * a` by the scalar `s`
/// gives `base * (a * s mod q)`.
#[verifier::external_body]
pub(crate) fn g2_scalar_mul(point: &[u8; 96], scalar: &[u8; 32]) -> (r: [u8; 96])
    requires
        g2_valid(point@),
        is_canonical(scalar@),
    ensures
        r@ == if le_nat(scalar@) == 1 {
            point@
        } else {
            g2_mul(point@, le_nat(scalar@))
        },
        g2_valid(r@),
        forall|base: Seq<u8>, a: nat|
            #![trigger g2_times(base, a)]
            g2_valid(base) && a < modulus() && point@ == g2_times(base, a) ==> r@ == g2_times(
                base,
                mul_mod(a, le_nat(scalar@)),
            ),
{
    let p = bls12_381::G2Affine::from_compressed(point).unwrap();
    let s = bls12_381::Scalar::from_bytes(scalar).unwrap();
    bls12_381::G2Affine::from(p * s).to_compressed()
}

/// `G2Projective + G2Projective` (then `to_affine` and `to_compressed`).
/// Claims that the result is named by `g2_add` and is again a G2 point, and,
/// as G2 is a group of prime order `q`, that `base * u + base * v` is
/// `base * (u + v mod q)`.
#[verifier::external_body]
pub(crate) fn g2_point_add(a: &[u8; 96], b: &[u8; 96]) -> (r: [u8; 96])
    requires
        g2_valid(a@),
        g2_valid(b@),
    ensures
        r@ == g2_add(a@, b@),
        g2_valid(r@),
        forall|base: Seq<u8>, u: nat, v: nat|
            #![trigger g2_times(base, u), g2_times(base, v)]
            g2_valid(base) && u < modulus() && v < modulus() && a@ == g2_times(base, u) && b@
                == g2_times(base, v) ==> r@ == g2_times(base, add_mod(u, v)),
{
    let pa = bls12_381::G2Projective::from(bls12_381::G2Affine::from_compressed(a).unwrap());
    let pb = bls12_381::G2Projective::from(bls12_381::G2Affine::from_compressed(b).unwrap());
    bls12_381::G2Affine::from(pa + pb).to_compressed()
}

/// `G2Affine::generator()`, compressed. Claims the encoding that the crate's
/// own test vectors give for the generator, that it is a G2 point, and that
/// it generates G2, a cyclic group of prime order `q` whose compressed
/// encodings are canonical (`g2_generates`).
#[verifier::external_body]
pub(crate) fn g2_generator() -> (r: [u8; 96])
    ensures
        r@ == g2_generator_encoding(),
        g2_valid(r@),
        g2_generates(r@),
{
    bls12_381::G2Affine::generator().to_compressed()
}

/// `G1Affine::generator()`, compressed. Claims the encoding that the crate's
/// own test vectors give for the generator, that it is a G1 point, and that
/// it generates G1, a cyclic group of prime order `q` whose compressed
/// encodings are canonical (`g1_generates`).
#[verifier::external_body]
pub(crate) fn g1_generator() -> (r: [u8; 48])
    ensures
        r@ == g1_generator_encoding(),
        g1_valid(r@),
        g1_generates(r@),
{
    bls12_381::G1Affine::generator().to_compressed()
}

/// `bls12_381::pairing`. Claims that the result is named by `pairing_of`;
/// that, the pairing being bilinear, `e(base * a, q)` is `e(base, q * a)` and
/// `e(p, base * a)` is `e(p * a, base)`; and that, the pairing being
/// non-degenerate on groups of prime order, no G1 point other than `p` pairs
/// with a `q` other than the identity to the same value.
#[verifier::external_body]
pub(crate) fn pairing(p: &[u8; 48], q: &[u8; 96]) -> (r: bls12_381::Gt)
    requires
        g1_valid(p@),
        g2_valid(q@),
    ensures
        r == pairing_of(p@, q@),
        forall|base: Seq<u8>, a: nat|
            #![trigger g1_times(base, a)]
            g1_valid(base) && a < modulus() && p@ == g1_times(base, a) ==> r == pairing_of(
                base,
                g2_times(q@, a),
            ),
        forall|base: Seq<u8>, a: nat|
            #![trigger g2_times(base, a)]
            g2_valid(base) && a < modulus() && q@ == g2_times(base, a) ==> r == pairing_of(
                g1_times(p@, a),
                base,
            ),
        forall|base: Seq<u8>, a: nat|
            #![trigger pairing_of(g1_times(base, a), q@)]
            q@ != g2_identity_encoding() && g1_valid(base) && a < modulus() && pairing_of(
                g1_times(base, a),
                q@,
            ) == r ==> p@ == g1_times(base, a),
{
    bls12_381::pairing(
        &bls12_381::G1Affine::from_compressed(p).unwrap(),
        &bls12_381::G2Affine::from_compressed(q).unwrap(),
    )
}

/// `Gt`'s `==`, which compares the two field elements that represent the
/// group elements. Claims that it is equality.
#[verifier::external_body]
pub(crate) fn gt_eq(a: &bls12_381::Gt, b: &bls12_381::Gt) -> (r: bool)
    ensures
        r == (*a == *b),
{
    a == b
}

} // verus!

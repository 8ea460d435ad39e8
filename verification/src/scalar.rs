//! Scalars of the BLS12-381 scalar field, held as their canonical 32-byte
//! little-endian encodings, and the field arithmetic that the library uses.
use vstd::arithmetic::div_mod::*;
use vstd::arithmetic::mul::*;
use vstd::prelude::*;

verus! {

/// The order `q` of the scalar field (and of the groups G1, G2 and GT).
pub open spec fn modulus() -> nat {
    0x73eda753299d7d483339d80809a1d80553bda402fffe5bfeffffffff00000001nat
}

/// The integer that a little-endian byte string denotes.
pub open spec fn le_nat(bytes: Seq<u8>) -> nat
    decreases bytes.len(),
{
    if bytes.len() == 0 {
        0
    } else {
        bytes[0] as nat + 256 * le_nat(bytes.subrange(1, bytes.len() as int))
    }
}

/// A 32-byte string is the canonical encoding of a scalar when the integer it
/// denotes is below the modulus.
pub open spec fn is_canonical(bytes: Seq<u8>) -> bool {
    bytes.len() == 32 && le_nat(bytes) < modulus()
}

/// Byte strings of one length that denote the same integer are the same.
pub proof fn lemma_le_nat_injective(a: Seq<u8>, b: Seq<u8>)
    requires
        a.len() == b.len(),
        le_nat(a) == le_nat(b),
    ensures
        a == b,
    decreases a.len(),
{
    if a.len() > 0 {
        let ra = a.subrange(1, a.len() as int);
        let rb = b.subrange(1, b.len() as int);
        let (x, y, u, v) = (a[0] as int, b[0] as int, le_nat(ra) as int, le_nat(rb) as int);
        assert(u == v && x == y) by (nonlinear_arith)
            requires
                0 <= x < 256,
                0 <= y < 256,
                0 <= u,
                0 <= v,
                x + 256 * u == y + 256 * v,
        ;
        lemma_le_nat_injective(ra, rb);
        assert(a =~= seq![a[0]] + ra);
        assert(b =~= seq![b[0]] + rb);
    } else {
        assert(a =~= b);
    }
}

/// `a - b` in the scalar field.
pub open spec fn sub_mod(a: nat, b: nat) -> nat {
    ((a as int - b as int) % (modulus() as int)) as nat
}

/// `a + b` in the scalar field.
pub open spec fn add_mod(a: nat, b: nat) -> nat {
    (a + b) % modulus()
}

/// `a * b` in the scalar field.
pub open spec fn mul_mod(a: nat, b: nat) -> nat {
    (a * b) % modulus()
}

/// The multiplicative inverse of `a` in the scalar field: the `v` below the
/// modulus with `a * v = 1`. (Only meaningful when `a` is not a multiple of
/// the modulus.)
pub open spec fn inverse(a: nat) -> nat {
    choose|v: nat| v < modulus() && #[trigger] ((a * v) % modulus()) == 1
}

/// An inverse modulo `q` is unique: two values below `q` that both multiply
/// `a` to one are equal.
pub proof fn lemma_inverse_unique(a: nat, v: nat, w: nat)
    requires
        v < modulus(),
        w < modulus(),
        (a * v) % modulus() == 1,
        (a * w) % modulus() == 1,
    ensures
        v == w,
{
    let q = modulus() as int;
    let (ai, vi, wi) = (a as int, v as int, w as int);
    // v * (a * w) == v  (mod q)
    lemma_mul_mod_noop_right(vi, ai * wi, q);
    lemma_small_mod(v, modulus());
    // w * (a * v) == w  (mod q)
    lemma_mul_mod_noop_right(wi, ai * vi, q);
    lemma_small_mod(w, modulus());
    // and the two products are the same integer
    assert(vi * (ai * wi) == wi * (ai * vi)) by (nonlinear_arith);
}

/// `x` reduced modulo `q`.
pub open spec fn reduce(x: int) -> nat {
    (x % (modulus() as int)) as nat
}

/// One more term of a sum modulo `q`: `(w mod q) + (y mod q) * l` is
/// `w + l * y` modulo `q`.
pub proof fn lemma_reduce_step(w: int, y: int, l: nat)
    ensures
        add_mod(reduce(w), mul_mod(reduce(y), l)) == reduce(w + l * y),
{
    let q = modulus() as int;
    lemma_mul_mod_noop_general(y, l as int, q);
    assert(y * l == l * y) by (nonlinear_arith);
    lemma_add_mod_noop(w, l * y, q);
    lemma_mod_twice(l * y, q);
    lemma_mod_bound(w, q);
    lemma_mod_bound(y, q);
}

/// Multiplying by a scalar and then by its inverse gives back the value.
pub proof fn lemma_mul_then_inverse(b: nat, f: nat, v: nat)
    requires
        f < modulus(),
        (b * v) % modulus() == 1,
    ensures
        mul_mod(mul_mod(b, f), v) == f,
{
    let q = modulus() as int;
    lemma_mul_mod_noop_general((b * f) as int, v as int, q);
    assert((b * f) * v == f * (b * v)) by (nonlinear_arith);
    lemma_mul_mod_noop_general(f as int, (b * v) as int, q);
    lemma_small_mod(f, modulus());
}

/// What the wrapper of `Scalar::invert` returns is the inverse above.
pub proof fn lemma_is_inverse(a: nat, v: nat)
    requires
        v < modulus(),
        (a * v) % modulus() == 1,
    ensures
        inverse(a) == v,
{
    let w = inverse(a);
    assert(v < modulus() && ((a * v) % modulus()) == 1);
    lemma_inverse_unique(a, v, w);
}

/// Whether `Scalar::from_bytes` accepts the bytes, with `bls12_381`.
/// Its documentation: it fails exactly when the input is not canonical, that
/// is when the little-endian integer is not below the modulus.
#[verifier::external_body]
pub(crate) fn scalar_bytes_are_canonical(bytes: &[u8; 32]) -> (r: bool)
    ensures
        r == is_canonical(bytes@),
{
    bool::from(bls12_381::Scalar::from_bytes(bytes).is_some())
}

/// `bls12_381::Scalar::from(u64)`, encoded with `to_bytes`.
/// Claims that the scalar's value is the integer itself (which is below the
/// modulus).
#[verifier::external_body]
pub(crate) fn scalar_from_u64(n: u64) -> (r: [u8; 32])
    ensures
        le_nat(r@) == n as nat,
{
    bls12_381::Scalar::from(n).to_bytes()
}

/// `bls12_381::Scalar`'s `*`. Claims that the result is the product of the
/// two values reduced modulo `q`.
#[verifier::external_body]
pub(crate) fn scalar_mul(a: &[u8; 32], b: &[u8; 32]) -> (r: [u8; 32])
    requires
        is_canonical(a@),
        is_canonical(b@),
    ensures
        le_nat(r@) == mul_mod(le_nat(a@), le_nat(b@)),
{
    (bls12_381::Scalar::from_bytes(a).unwrap() * bls12_381::Scalar::from_bytes(b).unwrap()).to_bytes()
}

/// `bls12_381::Scalar`'s `-`. Claims that the result is the difference of the
/// two values reduced modulo `q`.
#[verifier::external_body]
pub(crate) fn scalar_sub(a: &[u8; 32], b: &[u8; 32]) -> (r: [u8; 32])
    requires
        is_canonical(a@),
        is_canonical(b@),
    ensures
        le_nat(r@) == sub_mod(le_nat(a@), le_nat(b@)),
{
    (bls12_381::Scalar::from_bytes(a).unwrap() - bls12_381::Scalar::from_bytes(b).unwrap()).to_bytes()
}

/// `bls12_381::Scalar::invert`. Its documentation: it computes the
/// multiplicative inverse and fails exactly when the element is zero. Claims
/// that, and that the inverse is a value below `q` that multiplies the input
/// to one.
#[verifier::external_body]
pub(crate) fn scalar_invert(a: &[u8; 32]) -> (r: Option<[u8; 32]>)
    requires
        is_canonical(a@),
    ensures
        r.is_some() <==> le_nat(a@) != 0,
        r matches Some(v) ==> le_nat(v@) < modulus() && (le_nat(a@) * le_nat(v@)) % modulus() == 1,
{
    Option::<bls12_381::Scalar>::from(bls12_381::Scalar::from_bytes(a).unwrap().invert()).map(
        |v| v.to_bytes(),
    )
}

/// `bls12_381::Scalar::random` with the operating system's random number
/// generator (`rand::rngs::OsRng`). The result depends on chance: all that is
/// claimed is that its encoding is canonical.
#[verifier::external_body]
pub(crate) fn scalar_random() -> (r: [u8; 32])
    ensures
        is_canonical(r@),
{
    <bls12_381::Scalar as group::ff::Field>::random(rand::rngs::OsRng).to_bytes()
}

} // verus!

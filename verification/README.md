# tbs

Threshold blind signatures over BLS12-381, and the session outcomes of a
federated consensus, with machine-checked contracts and proofs.

- `src/scalar.rs`: scalars as canonical 32-byte encodings; field arithmetic
  through `bls12_381::Scalar`.
- `src/group.rs`: G1 and G2 points as compressed encodings; scalar
  multiplication, addition and the pairing through `bls12_381`.
- `src/hash.rs`: SHA3-256, hashing into G1, hex encoding.
- `src/lagrange.rs`: Lagrange multipliers at zero.
- `src/poly.rs`: polynomials and the interpolation property of the
  multipliers.
- `src/key_order.rs`: a `BTreeMap`'s entries in key order.
- `src/tbs.rs`: keys, messages, signatures; blinding, signing, aggregation,
  unblinding and verification.
- `src/session_outcome.rs`: accepted items, session headers and statuses.
- `app/`: serde and SCALE codec forms of the types, and `Debug`/`Display`
  for blinding keys.

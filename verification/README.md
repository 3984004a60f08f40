# vca_eval

Verus-verified primitives of the Verifiable Compliance Affidavit (VCA)
protocol: a sorted Merkle tree over account addresses with non-membership
proofs, an in-memory watchlist registry, Verifiable Compliance Records (VCR)
signed with ECDSA/secp256k1 over the Keccak-256 digest of their JSON message,
and a calldata encoding of records with its gas estimate.

## Layout

- `src/` — the library, verified by Verus. Keccak-256 (`sha3`) and
  secp256k1 ECDSA (`k256`) are called through a handful of trusted wrappers in
  `hashing.rs` and `keys.rs`; everything else is proved against its contract.
  - `tree_model.rs` holds the mathematical model of the tree (levels, paths,
    the climb from a leaf to the root) and the completeness proof of
    non-membership proofs.
  - `vcr.rs` states GenVCR and VerifyVCR over that model and proves that a
    record generated from the registry is accepted for a matching transaction.
- `tests/` — executable tests of the library.
- `app/` — serde forms of the record types, `std::error::Error` forms of the
  errors, and conversions to and from `alloy-primitives` and `k256` types.

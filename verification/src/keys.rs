//! secp256k1 ECDSA keys and signatures, computed by the `k256` crate.
//!
//! Keys are held as plain bytes: a signing key as its 32-byte secret scalar,
//! a verifying key as its compressed (33-byte) and uncompressed (65-byte)
//! SEC1 encodings; signatures as the 64 bytes `r || s`.

use k256::ecdsa::signature::{Signer, Verifier};
use k256::ecdsa::{
    Signature as K256Signature, SigningKey as K256SigningKey, VerifyingKey as K256VerifyingKey,
};
use vstd::prelude::*;

verus! {

/// Compressed SEC1 encoding of the public key of a secp256k1 secret scalar
/// (`None` when the bytes are not a valid non-zero scalar).
pub uninterp spec fn secp256k1_public_key(secret: Seq<u8>) -> Option<Seq<u8>>;

/// Uncompressed SEC1 encoding of a SEC1-encoded secp256k1 point (`None` when
/// the bytes do not encode a valid point).
pub uninterp spec fn sec1_uncompressed(point: Seq<u8>) -> Option<Seq<u8>>;

/// ECDSA/secp256k1 signature `r || s` of a message by a secret scalar
/// (`None` when signing fails).
pub uninterp spec fn ecdsa_sign_spec(secret: Seq<u8>, msg: Seq<u8>) -> Option<Seq<u8>>;

/// ECDSA/secp256k1 verdict on a signature `r || s` of a message under a
/// SEC1-encoded public key.
pub uninterp spec fn ecdsa_verify_spec(public_key: Seq<u8>, msg: Seq<u8>, sig: Seq<u8>) -> bool;

/// `k256::ecdsa::SigningKey::from_slice`, then `verifying_key().to_encoded_point(true)`:
/// the compressed public key of `secret`, or `None` when `secret` is not a
/// valid scalar. The contract only names the result.
#[verifier::external_body]
fn public_key_from_secret(secret: &[u8; 32]) -> (r: Option<[u8; 33]>)
    ensures
        match r {
            Some(p) => secp256k1_public_key(secret@) == Some(p@),
            None => secp256k1_public_key(secret@) is None,
        },
{
    let sk = K256SigningKey::from_slice(secret).ok()?;
    let point = sk.verifying_key().to_encoded_point(true);
    <[u8; 33]>::try_from(point.as_bytes()).ok()
}

/// `k256::ecdsa::VerifyingKey::from_sec1_bytes`, then `to_encoded_point(false)`:
/// the uncompressed encoding of the point, or `None` when `point` does not
/// encode a valid point. The contract only names the result.
#[verifier::external_body]
fn uncompressed_point(point: &[u8; 33]) -> (r: Option<[u8; 65]>)
    ensures
        match r {
            Some(u) => sec1_uncompressed(point@) == Some(u@),
            None => sec1_uncompressed(point@) is None,
        },
{
    let vk = K256VerifyingKey::from_sec1_bytes(point).ok()?;
    let encoded = vk.to_encoded_point(false);
    <[u8; 65]>::try_from(encoded.as_bytes()).ok()
}

/// `k256::ecdsa::SigningKey::from_slice`, then `Signer::try_sign` (SHA-256 of
/// `msg`, RFC 6979 nonce), then `Signature::to_bytes`. On success the result is
/// the named signature, and it verifies under the signing key's public key
/// with `ecdsa_verify` (the round trip shown in the `k256::ecdsa` module
/// documentation). The error message is not described.
#[verifier::external_body]
fn ecdsa_sign(secret: &[u8; 32], msg: &[u8]) -> (r: Result<[u8; 64], String>)
    ensures
        match r {
            Ok(sig) => {
                &&& ecdsa_sign_spec(secret@, msg@) == Some(sig@)
                &&& secp256k1_public_key(secret@) is Some
                &&& ecdsa_verify_spec(secp256k1_public_key(secret@).unwrap(), msg@, sig@)
            },
            Err(_) => ecdsa_sign_spec(secret@, msg@) is None,
        },
{
    let sk = K256SigningKey::from_slice(secret).map_err(|e| e.to_string())?;
    let sig: K256Signature = sk.try_sign(msg).map_err(|e| e.to_string())?;
    Ok(sig.to_bytes().into())
}

/// `k256::ecdsa::VerifyingKey::from_sec1_bytes`, `Signature::from_slice`, then
/// `Verifier::verify` (SHA-256 of `msg`): `false` when the key or the
/// signature does not parse or the signature does not verify. The contract
/// only names the verdict.
#[verifier::external_body]
fn ecdsa_verify(public_key: &[u8; 33], msg: &[u8], sig: &[u8; 64]) -> (r: bool)
    ensures
        r == ecdsa_verify_spec(public_key@, msg@, sig@),
{
    let vk = match K256VerifyingKey::from_sec1_bytes(public_key) {
        Ok(vk) => vk,
        Err(_) => return false,
    };
    let signature = match K256Signature::from_slice(sig) {
        Ok(s) => s,
        Err(_) => return false,
    };
    vk.verify(msg, &signature).is_ok()
}

/// A secp256k1 ECDSA verifying key.
#[derive(Clone, Copy, Debug)]
pub struct VerifyingKey {
    compressed: [u8; 33],
    uncompressed: [u8; 65],
}

impl View for VerifyingKey {
    type V = Seq<u8>;

    /// The compressed SEC1 encoding.
    closed spec fn view(&self) -> Seq<u8> {
        self.compressed@
    }
}

impl VerifyingKey {
    #[verifier::type_invariant]
    closed spec fn encodings_agree(self) -> bool {
        sec1_uncompressed(self.compressed@) == Some(self.uncompressed@)
    }

    /// The key with compressed SEC1 encoding `compressed`, or `None` when it
    /// does not encode a valid point.
    pub fn from_compressed(compressed: [u8; 33]) -> (r: Option<VerifyingKey>)
        ensures
            match r {
                Some(vk) => vk@ == compressed@ && sec1_uncompressed(compressed@) is Some,
                None => sec1_uncompressed(compressed@) is None,
            },
    {
        match uncompressed_point(&compressed) {
            Some(uncompressed) => Some(VerifyingKey { compressed, uncompressed }),
            None => None,
        }
    }

    /// The compressed encoding is 33 bytes long.
    pub proof fn lemma_compressed_len(self)
        ensures
            self@.len() == 33,
    {
    }

    /// Compressed SEC1 encoding (33 bytes).
    pub fn to_compressed(&self) -> (r: [u8; 33])
        ensures
            r@ == self@,
    {
        self.compressed
    }

    /// Uncompressed SEC1 encoding (65 bytes, starting with the tag byte).
    pub fn to_uncompressed(&self) -> (r: [u8; 65])
        ensures
            Some(r@) == sec1_uncompressed(self@),
    {
        proof {
            use_type_invariant(self);
        }
        self.uncompressed
    }

    /// Verify a signature `r || s` of `msg`.
    pub fn verify(&self, msg: &[u8], sig: &[u8; 64]) -> (r: bool)
        ensures
            r == ecdsa_verify_spec(self@, msg@, sig@),
    {
        ecdsa_verify(&self.compressed, msg, sig)
    }
}

/// A secp256k1 ECDSA signing key.
#[derive(Clone, Copy, Debug)]
pub struct SigningKey {
    secret: [u8; 32],
    public: VerifyingKey,
}

impl SigningKey {
    #[verifier::type_invariant]
    closed spec fn public_matches(self) -> bool {
        secp256k1_public_key(self.secret@) == Some(self.public@)
    }

    /// The secret scalar bytes.
    pub closed spec fn secret_spec(&self) -> Seq<u8> {
        self.secret@
    }

    /// The key with secret scalar `secret`, or `None` when `secret` is not a
    /// valid scalar.
    pub fn from_bytes(secret: [u8; 32]) -> (r: Option<SigningKey>)
        ensures
            match r {
                Some(sk) => {
                    &&& sk.secret_spec() == secret@
                    &&& secp256k1_public_key(secret@) == Some(sk.public_spec())
                    &&& sec1_uncompressed(sk.public_spec()) is Some
                },
                None => {
                    ||| secp256k1_public_key(secret@) is None
                    ||| sec1_uncompressed(secp256k1_public_key(secret@).unwrap()) is None
                },
            },
    {
        let compressed = match public_key_from_secret(&secret) {
            Some(p) => p,
            None => {
                return None;
            },
        };
        match VerifyingKey::from_compressed(compressed) {
            Some(public) => Some(SigningKey { secret, public }),
            None => None,
        }
    }

    /// The compressed encoding of the public key.
    pub closed spec fn public_spec(&self) -> Seq<u8> {
        self.public@
    }

    /// The secret scalar bytes.
    pub fn to_bytes(&self) -> (r: [u8; 32])
        ensures
            r@ == self.secret_spec(),
    {
        self.secret
    }

    /// The matching verifying key.
    pub fn verifying_key(&self) -> (r: VerifyingKey)
        ensures
            r@ == self.public_spec(),
            secp256k1_public_key(self.secret_spec()) == Some(r@),
    {
        proof {
            use_type_invariant(self);
        }
        self.public
    }

    /// Sign `msg`: the signature `r || s`, or an error message when signing fails.
    pub fn sign(&self, msg: &[u8]) -> (r: Result<[u8; 64], String>)
        ensures
            match r {
                Ok(sig) => ecdsa_sign_spec(self.secret_spec(), msg@) == Some(sig@)
                    && ecdsa_verify_spec(self.public_spec(), msg@, sig@),
                Err(_) => ecdsa_sign_spec(self.secret_spec(), msg@) is None,
            },
    {
        proof {
            use_type_invariant(self);
        }
        ecdsa_sign(&self.secret, msg)
    }
}

} // verus!

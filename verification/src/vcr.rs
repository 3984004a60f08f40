//! Verifiable Compliance Records: a signed statement that a sender's address
//! is absent from every watchlist of a policy, bound to one transaction.
//!
//! The signed message is `M = (P, C, Π)`: the policy's watchlist URIs, the
//! context `(pkR, NS)` and one non-membership proof per URI. The signature is
//! ECDSA/secp256k1 over the Keccak-256 digest of the message's JSON text.

use crate::address::{lemma_value_injective, Address};
use crate::hashing::{bytes32_eq, keccak256, keccak256_spec};
use crate::keys::{ecdsa_sign_spec, ecdsa_verify_spec, sec1_uncompressed, SigningKey, VerifyingKey};
use crate::merkle::{generated_proof, proof_error, MerkleError, NonMembershipProof};
use crate::message::{message_bytes, message_json};
use crate::registry::{historical_root, MockRegistry, WatchlistModel};
use crate::util::subrange_to_vec;
use vstd::prelude::*;
use vstd::utf8::encode_utf8;

verus! {

/// Errors of record generation.
#[derive(Debug)]
pub enum VcrError {
    /// Signing failed, with the signer's message.
    SignatureError(String),
    /// The policy and the proofs differ in number.
    PolicyProofMismatch,
    /// The policy holds an invalid entry.
    InvalidPolicy(String),
    /// A policy URI is not in the registry.
    WatchlistNotFound(String),
    /// Proof generation failed.
    MerkleError(MerkleError),
}

impl From<MerkleError> for VcrError {
    fn from(e: MerkleError) -> (r: VcrError) {
        VcrError::MerkleError(e)
    }
}

impl vstd::std_specs::convert::FromSpecImpl<MerkleError> for VcrError {
    open spec fn obeys_from_spec() -> bool {
        true
    }

    open spec fn from_spec(e: MerkleError) -> VcrError {
        VcrError::MerkleError(e)
    }
}

/// The account address of a public key: the last 20 bytes of the Keccak-256
/// digest of its uncompressed encoding without the leading tag byte.
pub open spec fn address_of_key(pk: Seq<u8>) -> Seq<u8> {
    keccak256_spec(sec1_uncompressed(pk).unwrap().subrange(1, 65)).subrange(12, 32)
}

/// Context binding a record to one transaction: `C = (pkR, NS)`.
#[derive(Clone, Copy, Debug)]
pub struct Context {
    /// Receiver's ECDSA public key.
    pub pk_receiver: VerifyingKey,
    /// Sender's transaction nonce.
    pub nonce_sender: u64,
}

impl Context {
    pub fn new(pk_receiver: VerifyingKey, nonce_sender: u64) -> (r: Self)
        ensures
            r.pk_receiver == pk_receiver,
            r.nonce_sender == nonce_sender,
    {
        Context { pk_receiver, nonce_sender }
    }

    /// Serialized size: 33-byte compressed key and 8-byte nonce.
    pub fn size_bytes(&self) -> (r: usize)
        ensures
            r == 41,
    {
        33 + 8
    }

    /// The receiver's address `H(pkR)`.
    pub fn receiver_address(&self) -> (a: Address)
        ensures
            a@ == address_of_key(self.pk_receiver@),
    {
        let point = self.pk_receiver.to_uncompressed();
        let body = subrange_to_vec(point.as_slice(), 1, 65);
        let hash = keccak256(body.as_slice());
        Address::from_slice_at(hash.as_slice(), 12)
    }
}

/// A compliance policy: the URIs of the watchlists the sender must be absent from.
pub type Policy = Vec<String>;

/// The signed message `M = (P, C, Π)`.
#[derive(Clone, Debug)]
pub struct ComplianceMessage {
    pub policy: Policy,
    pub context: Context,
    /// One non-membership proof per policy entry, in the same order.
    pub proofs: Vec<NonMembershipProof>,
}

/// A Verifiable Compliance Record `VCR = (M, σ)`.
#[derive(Clone, Debug)]
pub struct VCR {
    pub message: ComplianceMessage,
    pub signature: VcrSignature,
}

/// The transaction fields a record is checked against.
#[derive(Clone, Debug)]
pub struct Transaction {
    pub addr_sender: Address,
    pub addr_receiver: Address,
    pub nonce: u64,
    /// Time at which the watchlist roots are looked up.
    pub time: u64,
    /// Transaction payload carrying the serialized record.
    pub payload: Vec<u8>,
}

/// An ECDSA signature `(r, s, v)`.
#[derive(Clone, Copy, Debug)]
pub struct VcrSignature {
    pub r: [u8; 32],
    pub s: [u8; 32],
    pub v: u8,
}

impl VcrSignature {
    /// The signature `r || s` with recovery id `v`.
    pub open spec fn bytes(&self) -> Seq<u8> {
        self.r@ + self.s@
    }

    /// Split a 64-byte signature `r || s` and attach the recovery id.
    pub fn from_signature(sig: &[u8; 64], recovery_id: u8) -> (r: Self)
        ensures
            r.bytes() == sig@,
            r.v == recovery_id,
    {
        let mut r = [0u8; 32];
        let mut s = [0u8; 32];
        let mut i: usize = 0;
        while i < 32
            invariant
                0 <= i <= 32,
                sig@.len() == 64,
                forall|j: int| 0 <= j < i ==> r@[j] == sig@[j],
                forall|j: int| 0 <= j < i ==> s@[j] == sig@[32 + j],
            decreases 32 - i,
        {
            r[i] = sig[i];
            s[i] = sig[32 + i];
            i = i + 1;
        }
        let out = VcrSignature { r, s, v: recovery_id };
        assert(out.bytes() =~= sig@);
        out
    }

    /// Serialized size: `r` (32), `s` (32) and `v` (1).
    pub fn size_bytes(&self) -> (r: usize)
        ensures
            r == 65,
    {
        65
    }
}

/// The digest that is signed: Keccak-256 of the message's JSON text.
pub open spec fn message_digest(m: ComplianceMessage) -> Seq<u8> {
    keccak256_spec(message_json(m))
}

/// `policy` holds a URI equal to `uri`.
pub open spec fn in_policy(policy: Seq<String>, uri: Seq<char>) -> bool {
    exists|j: int| 0 <= j < policy.len() && #[trigger] policy[j]@ == uri
}

/// Every URI of `required` occurs in `policy`.
pub open spec fn covers(policy: Seq<String>, required: Seq<String>) -> bool {
    forall|i: int| 0 <= i < required.len() ==> in_policy(policy, (#[trigger] required[i])@)
}

/// The checks on one policy entry and its proof against a transaction: the
/// proof is for the sender, its root is the watchlist's root at the
/// transaction's time, and it is accepted under that root.
pub open spec fn entry_checks(
    p: NonMembershipProof,
    uri: Seq<char>,
    tx: Transaction,
    m: Map<Seq<char>, WatchlistModel>,
) -> bool {
    &&& p.addr == tx.addr_sender
    &&& historical_root(m, uri, tx.time) == Some(p.root@)
    &&& p.accepts(p.root@, p.addr)
}

/// The signature of `vcr` verifies under `pk` over the message digest.
pub open spec fn signature_valid(vcr: VCR, pk: Seq<u8>) -> bool {
    ecdsa_verify_spec(pk, message_digest(vcr.message), vcr.signature.bytes())
}

/// VerifyVCR: the record covers the verifier's policy, is bound to the
/// transaction's receiver and nonce, is signed under the receiver's key,
/// holds one proof per policy entry, and each proof passes `entry_checks`
/// against the registry with the policy entry at the same position.
pub open spec fn vcr_accepted(
    vcr: VCR,
    tx: Transaction,
    required: Seq<String>,
    m: Map<Seq<char>, WatchlistModel>,
) -> bool {
    let msg = vcr.message;
    &&& covers(msg.policy@, required)
    &&& address_of_key(msg.context.pk_receiver@) == tx.addr_receiver@
    &&& msg.context.nonce_sender == tx.nonce
    &&& signature_valid(vcr, msg.context.pk_receiver@)
    &&& msg.proofs@.len() == msg.policy@.len()
    &&& forall|k: int|
        0 <= k < msg.proofs@.len() ==> entry_checks(
            #[trigger] msg.proofs@[k],
            msg.policy@[k]@,
            tx,
            m,
        )
}

/// The signature verifies under `pk`, the policy and the proofs agree in
/// number, and each proof is accepted under its own root for its own address.
pub open spec fn record_verifies(vcr: VCR, pk: Seq<u8>) -> bool {
    &&& signature_valid(vcr, pk)
    &&& vcr.message.policy@.len() == vcr.message.proofs@.len()
    &&& forall|k: int|
        0 <= k < vcr.message.proofs@.len() ==> (#[trigger] vcr.message.proofs@[k]).accepts(
            vcr.message.proofs@[k].root@,
            vcr.message.proofs@[k].addr,
        )
}

/// Whether `policy` contains a URI equal to `uri`.
fn policy_contains(policy: &[String], uri: &String) -> (r: bool)
    ensures
        r == in_policy(policy@, uri@),
{
    let mut j: usize = 0;
    while j < policy.len()
        invariant
            0 <= j <= policy@.len(),
            forall|t: int| 0 <= t < j ==> (#[trigger] policy@[t])@ != uri@,
        decreases policy@.len() - j,
    {
        if policy[j] == *uri {
            return true;
        }
        j = j + 1;
    }
    false
}

/// `vcr` carries a signature of its message's digest by the secret scalar
/// `secret`, which verifies under `public`; the recovery id is 0.
pub open spec fn signed_record(vcr: VCR, secret: Seq<u8>, public: Seq<u8>) -> bool {
    &&& ecdsa_sign_spec(secret, message_digest(vcr.message)) == Some(vcr.signature.bytes())
    &&& signature_valid(vcr, public)
    &&& vcr.signature.v == 0
}

/// Policy entry `uri` yields a proof for `addr` from the registry: it is
/// non-empty, registered, and `addr` can be proved absent from its tree.
pub open spec fn entry_ok(uri: Seq<char>, m: Map<Seq<char>, WatchlistModel>, addr: Address) -> bool {
    &&& uri.len() > 0
    &&& m.contains_key(uri)
    &&& proof_error(m[uri].leaves, addr) is None
}

/// Entry `k` is the first entry of `policy` that yields no proof.
pub open spec fn first_failure(
    policy: Seq<String>,
    m: Map<Seq<char>, WatchlistModel>,
    addr: Address,
    k: int,
) -> bool {
    &&& 0 <= k < policy.len()
    &&& forall|j: int| 0 <= j < k ==> entry_ok((#[trigger] policy[j])@, m, addr)
    &&& !entry_ok(policy[k]@, m, addr)
}

/// `e` is the error of policy entry `uri`: it is empty, unknown to the
/// registry, or `addr` cannot be proved absent from its tree.
pub open spec fn entry_failed(
    e: VcrError,
    uri: Seq<char>,
    m: Map<Seq<char>, WatchlistModel>,
    addr: Address,
) -> bool {
    match e {
        VcrError::InvalidPolicy(msg) => uri.len() == 0 && msg@ == "Empty URI"@,
        VcrError::WatchlistNotFound(u) => uri.len() > 0 && !m.contains_key(uri) && u@ == uri,
        VcrError::MerkleError(me) => uri.len() > 0 && m.contains_key(uri) && proof_error(
            m[uri].leaves,
            addr,
        ) == Some(me),
        _ => false,
    }
}

/// `e` is the error of the first policy entry that yields no proof.
pub open spec fn policy_error(
    e: VcrError,
    policy: Seq<String>,
    m: Map<Seq<char>, WatchlistModel>,
    addr: Address,
) -> bool {
    exists|k: int| #[trigger] first_failure(policy, m, addr, k) && entry_failed(e, policy[k]@, m, addr)
}

/// `proofs` are the proofs that the registry's trees generate for `addr`,
/// one per policy entry, in order.
pub open spec fn registry_proofs(
    proofs: Seq<NonMembershipProof>,
    policy: Seq<String>,
    m: Map<Seq<char>, WatchlistModel>,
    addr: Address,
) -> bool {
    &&& proofs.len() == policy.len()
    &&& forall|k: int|
        0 <= k < policy.len() ==> generated_proof(
            #[trigger] proofs[k],
            m[policy[k]@].leaves,
            addr,
        )
}

/// The message that generation from the registry signs: the policy, the
/// context `(public, nonce)` and the registry's proofs for `addr`.
pub open spec fn registry_message(
    msg: ComplianceMessage,
    policy: Seq<String>,
    public: Seq<u8>,
    nonce: u64,
    m: Map<Seq<char>, WatchlistModel>,
    addr: Address,
) -> bool {
    &&& msg.policy@ == policy
    &&& msg.context.pk_receiver@ == public
    &&& msg.context.nonce_sender == nonce
    &&& registry_proofs(msg.proofs@, policy, m, addr)
}

/// Total byte length of the URIs of a policy.
pub open spec fn policy_bytes(policy: Seq<String>) -> nat
    decreases policy.len(),
{
    if policy.len() == 0 {
        0
    } else {
        policy_bytes(policy.drop_last()) + encode_utf8(policy.last()@).len()
    }
}

/// Total serialized size of a list of proofs.
pub open spec fn proofs_size(proofs: Seq<NonMembershipProof>) -> nat
    decreases proofs.len(),
{
    if proofs.len() == 0 {
        0
    } else {
        proofs_size(proofs.drop_last()) + proofs.last().size_spec()
    }
}

/// Serialized size of a record: the URI count (4 bytes), each URI with its
/// 4-byte length, the context (41 bytes), the proof count (4 bytes), the
/// proofs and the signature (65 bytes).
pub open spec fn vcr_size(vcr: VCR) -> nat {
    4 + 4 * vcr.message.policy@.len() + policy_bytes(vcr.message.policy@) + 41 + 4 + proofs_size(
        vcr.message.proofs@,
    ) + 65
}

proof fn lemma_policy_bytes_prefix(policy: Seq<String>, i: int)
    requires
        0 <= i <= policy.len(),
    ensures
        policy_bytes(policy.take(i)) <= policy_bytes(policy),
    decreases policy.len() - i,
{
    if i < policy.len() {
        lemma_policy_bytes_prefix(policy, i + 1);
        assert(policy.take(i + 1).drop_last() =~= policy.take(i));
    } else {
        assert(policy.take(i) =~= policy);
    }
}

proof fn lemma_proofs_size_prefix(proofs: Seq<NonMembershipProof>, i: int)
    requires
        0 <= i <= proofs.len(),
    ensures
        proofs_size(proofs.take(i)) <= proofs_size(proofs),
    decreases proofs.len() - i,
{
    if i < proofs.len() {
        lemma_proofs_size_prefix(proofs, i + 1);
        assert(proofs.take(i + 1).drop_last() =~= proofs.take(i));
    } else {
        assert(proofs.take(i) =~= proofs);
    }
}

/// Whether every URI of `required` occurs in `policy`.
fn policy_covers(policy: &[String], required: &[String]) -> (r: bool)
    ensures
        r == covers(policy@, required@),
{
    let mut i: usize = 0;
    while i < required.len()
        invariant
            0 <= i <= required@.len(),
            forall|t: int| 0 <= t < i ==> in_policy(policy@, (#[trigger] required@[t])@),
        decreases required@.len() - i,
    {
        if !policy_contains(policy, &required[i]) {
            return false;
        }
        i = i + 1;
    }
    true
}

/// Whether each proof, paired by position with a policy URI, passes
/// `entry_checks` against the transaction and the registry.
fn entries_pass(
    proofs: &[NonMembershipProof],
    policy: &[String],
    tx: &Transaction,
    registry: &MockRegistry,
) -> (r: bool)
    ensures
        r == forall|t: int|
            0 <= t < proofs@.len() && t < policy@.len() ==> entry_checks(
                #[trigger] proofs@[t],
                policy@[t]@,
                *tx,
                registry@,
            ),
{
    let n = if proofs.len() <= policy.len() {
        proofs.len()
    } else {
        policy.len()
    };
    let mut k: usize = 0;
    while k < n
        invariant
            0 <= k <= n,
            n <= proofs@.len(),
            n <= policy@.len(),
            n == proofs@.len() || n == policy@.len(),
            forall|t: int|
                0 <= t < k ==> entry_checks(#[trigger] proofs@[t], policy@[t]@, *tx, registry@),
        decreases n - k,
    {
        let proof = &proofs[k];
        if !proof.addr.eq(&tx.addr_sender) {
            return false;
        }
        let historical = match registry.get_historical_root(policy[k].as_str(), tx.time) {
            Some(root) => root,
            None => {
                return false;
            },
        };
        if !bytes32_eq(&proof.root, &historical) {
            return false;
        }
        if !proof.verify(&proof.root, &proof.addr) {
            return false;
        }
        k = k + 1;
    }
    true
}

/// The proof for one policy entry: fails when the URI is empty, unknown to
/// the registry, or its tree yields no proof for `addr`.
fn entry_proof(uri: &String, registry: &MockRegistry, addr: &Address) -> (r: Result<
    NonMembershipProof,
    VcrError,
>)
    ensures
        match r {
            Ok(p) => entry_ok(uri@, registry@, *addr) && generated_proof(
                p,
                registry@[uri@].leaves,
                *addr,
            ),
            Err(e) => entry_failed(e, uri@, registry@, *addr),
        },
{
    if uri.as_str().is_empty() {
        return Err(VcrError::InvalidPolicy("Empty URI".to_owned()));
    }
    let tree = match registry.get_tree(uri.as_str()) {
        Some(t) => t,
        None => {
            return Err(VcrError::WatchlistNotFound(uri.clone()));
        },
    };
    match tree.generate_non_membership_proof(addr) {
        Ok(p) => Ok(p),
        Err(e) => Err(VcrError::from(e)),
    }
}

impl VCR {
    /// Sign the digest of `message`; the recovery id is left 0 (verification
    /// uses the public key of the context).
    fn sign(signing_key: &SigningKey, message: &ComplianceMessage) -> (r: Result<
        VcrSignature,
        VcrError,
    >)
        ensures
            match r {
                Ok(sig) => {
                    &&& ecdsa_sign_spec(signing_key.secret_spec(), message_digest(*message)) == Some(
                        sig.bytes(),
                    )
                    &&& ecdsa_verify_spec(
                        signing_key.public_spec(),
                        message_digest(*message),
                        sig.bytes(),
                    )
                    &&& sig.v == 0
                },
                Err(VcrError::SignatureError(_)) => ecdsa_sign_spec(
                    signing_key.secret_spec(),
                    message_digest(*message),
                ) is None,
                Err(_) => false,
            },
    {
        let bytes = message_bytes(message);
        let digest = keccak256(bytes.as_slice());
        match signing_key.sign(digest.as_slice()) {
            Ok(sig) => Ok(VcrSignature::from_signature(&sig, 0)),
            Err(e) => Err(VcrError::SignatureError(e)),
        }
    }

    /// GenVCR from pre-generated proofs: checks that the policy and the proofs
    /// agree in number and that no URI is empty, then signs the message.
    pub fn generate(
        signing_key: &SigningKey,
        policy: Policy,
        context: Context,
        proofs: Vec<NonMembershipProof>,
    ) -> (r: Result<Self, VcrError>)
        ensures
            match r {
                Ok(vcr) => {
                    &&& policy@.len() == proofs@.len()
                    &&& forall|i: int| 0 <= i < policy@.len() ==> (#[trigger] policy@[i])@.len() > 0
                    &&& vcr.message.policy@ == policy@
                    &&& vcr.message.context == context
                    &&& vcr.message.proofs@ == proofs@
                    &&& signed_record(vcr, signing_key.secret_spec(), signing_key.public_spec())
                },
                Err(VcrError::PolicyProofMismatch) => policy@.len() != proofs@.len(),
                Err(VcrError::InvalidPolicy(msg)) => {
                    &&& policy@.len() == proofs@.len()
                    &&& exists|i: int| 0 <= i < policy@.len() && (#[trigger] policy@[i])@.len() == 0
                    &&& msg@ == "Empty URI"@
                },
                Err(VcrError::SignatureError(_)) => {
                    &&& policy@.len() == proofs@.len()
                    &&& forall|i: int| 0 <= i < policy@.len() ==> (#[trigger] policy@[i])@.len() > 0
                    &&& ecdsa_sign_spec(
                        signing_key.secret_spec(),
                        message_digest((ComplianceMessage { policy, context, proofs })),
                    ) is None
                },
                Err(_) => false,
            },
    {
        if policy.len() != proofs.len() {
            return Err(VcrError::PolicyProofMismatch);
        }
        let mut i: usize = 0;
        while i < policy.len()
            invariant
                0 <= i <= policy@.len(),
                policy@.len() == proofs@.len(),
                forall|t: int| 0 <= t < i ==> (#[trigger] policy@[t])@.len() > 0,
            decreases policy@.len() - i,
        {
            if policy[i].as_str().is_empty() {
                assert(policy@[i as int]@.len() == 0);
                return Err(VcrError::InvalidPolicy("Empty URI".to_owned()));
            }
            i = i + 1;
        }
        let message = ComplianceMessage { policy, context, proofs };
        match Self::sign(signing_key, &message) {
            Ok(signature) => Ok(VCR { message, signature }),
            Err(e) => Err(e),
        }
    }

    /// GenVCR: for each policy URI, fetch its tree from the registry and
    /// generate the sender's non-membership proof; then sign the message with
    /// the context `(signing key's public key, nonce)`. Stops at the first URI
    /// that is empty, unknown, or whose tree yields no proof.
    pub fn generate_with_registry(
        signing_key: &SigningKey,
        policy: Policy,
        addr_sender: &Address,
        nonce_sender: u64,
        registry: &MockRegistry,
    ) -> (r: Result<Self, VcrError>)
        ensures
            match r {
                Ok(vcr) => {
                    &&& forall|k: int|
                        0 <= k < policy@.len() ==> entry_ok(
                            (#[trigger] policy@[k])@,
                            registry@,
                            *addr_sender,
                        )
                    &&& registry_message(
                        vcr.message,
                        policy@,
                        signing_key.public_spec(),
                        nonce_sender,
                        registry@,
                        *addr_sender,
                    )
                    &&& signed_record(vcr, signing_key.secret_spec(), signing_key.public_spec())
                },
                Err(VcrError::SignatureError(_)) => {
                    &&& forall|k: int|
                        0 <= k < policy@.len() ==> entry_ok(
                            (#[trigger] policy@[k])@,
                            registry@,
                            *addr_sender,
                        )
                    &&& exists|msg: ComplianceMessage|
                        #[trigger] registry_message(
                            msg,
                            policy@,
                            signing_key.public_spec(),
                            nonce_sender,
                            registry@,
                            *addr_sender,
                        ) && ecdsa_sign_spec(signing_key.secret_spec(), message_digest(msg)) is None
                },
                Err(e) => policy_error(e, policy@, registry@, *addr_sender),
            },
    {
        let context = Context::new(signing_key.verifying_key(), nonce_sender);
        let mut proofs: Vec<NonMembershipProof> = Vec::new();
        let mut i: usize = 0;
        while i < policy.len()
            invariant
                0 <= i <= policy@.len(),
                proofs@.len() == i,
                forall|t: int| 0 <= t < i ==> entry_ok((#[trigger] policy@[t])@, registry@, *addr_sender),
                forall|t: int|
                    0 <= t < i ==> generated_proof(
                        #[trigger] proofs@[t],
                        registry@[policy@[t]@].leaves,
                        *addr_sender,
                    ),
            decreases policy@.len() - i,
        {
            match entry_proof(&policy[i], registry, addr_sender) {
                Ok(p) => {
                    proofs.push(p);
                },
                Err(e) => {
                    proof {
                        assert(first_failure(policy@, registry@, *addr_sender, i as int));
                    }
                    return Err(e);
                },
            }
            i = i + 1;
        }
        let message = ComplianceMessage { policy, context, proofs };
        proof {
            assert(registry_message(
                message,
                policy@,
                signing_key.public_spec(),
                nonce_sender,
                registry@,
                *addr_sender,
            ));
        }
        match Self::sign(signing_key, &message) {
            Ok(signature) => Ok(VCR { message, signature }),
            Err(e) => Err(e),
        }
    }

    /// Verify only the signature over the message, under `verifying_key`.
    pub fn verify_signature(&self, verifying_key: &VerifyingKey) -> (r: bool)
        ensures
            r == signature_valid(*self, verifying_key@),
    {
        let bytes = message_bytes(&self.message);
        let digest = keccak256(bytes.as_slice());
        let mut sig_bytes = [0u8; 64];
        let mut i: usize = 0;
        while i < 32
            invariant
                0 <= i <= 32,
                forall|j: int| 0 <= j < i ==> sig_bytes@[j] == self.signature.r@[j],
                forall|j: int| 0 <= j < i ==> sig_bytes@[32 + j] == self.signature.s@[j],
            decreases 32 - i,
        {
            sig_bytes[i] = self.signature.r[i];
            sig_bytes[32 + i] = self.signature.s[i];
            i = i + 1;
        }
        assert(sig_bytes@ =~= self.signature.bytes());
        verifying_key.verify(digest.as_slice(), &sig_bytes)
    }

    /// VerifyVCR: full check of the record against a transaction, the
    /// verifier's policy and the registry. The record must hold one proof per
    /// policy entry; proofs and policy URIs are paired by position.
    pub fn verify_with_registry(
        &self,
        tx: &Transaction,
        policy_verifier: &Policy,
        registry: &MockRegistry,
    ) -> (r: bool)
        ensures
            r == vcr_accepted(*self, *tx, policy_verifier@, registry@),
    {
        let policy = &self.message.policy;
        let context = &self.message.context;
        let proofs = &self.message.proofs;
        if !policy_covers(policy.as_slice(), policy_verifier.as_slice()) {
            return false;
        }
        let receiver = context.receiver_address();
        if !receiver.eq(&tx.addr_receiver) {
            proof {
                if address_of_key(context.pk_receiver@) == tx.addr_receiver@ {
                    lemma_value_injective(receiver, tx.addr_receiver);
                }
            }
            return false;
        }
        if context.nonce_sender != tx.nonce {
            return false;
        }
        if !self.verify_signature(&context.pk_receiver) {
            return false;
        }
        if proofs.len() != policy.len() {
            return false;
        }
        entries_pass(proofs.as_slice(), policy.as_slice(), tx, registry)
    }

    /// Verify the signature and every proof against its own root and address,
    /// without the transaction-binding checks of `verify_with_registry`.
    pub fn verify(&self, verifying_key: &VerifyingKey) -> (r: bool)
        ensures
            r == record_verifies(*self, verifying_key@),
    {
        if !self.verify_signature(verifying_key) {
            return false;
        }
        if self.message.policy.len() != self.message.proofs.len() {
            return false;
        }
        let mut k: usize = 0;
        while k < self.message.proofs.len()
            invariant
                0 <= k <= self.message.proofs@.len(),
                forall|t: int|
                    0 <= t < k ==> (#[trigger] self.message.proofs@[t]).accepts(
                        self.message.proofs@[t].root@,
                        self.message.proofs@[t].addr,
                    ),
            decreases self.message.proofs@.len() - k,
        {
            let proof = &self.message.proofs[k];
            if !proof.verify(&proof.root, &proof.addr) {
                return false;
            }
            k = k + 1;
        }
        true
    }

    /// Total serialized size in bytes.
    pub fn size_bytes(&self) -> (r: usize)
        requires
            vcr_size(*self) <= usize::MAX,
        ensures
            r == vcr_size(*self),
    {
        let policy = &self.message.policy;
        let proofs = &self.message.proofs;
        let mut policy_size: usize = 0;
        let mut i: usize = 0;
        while i < policy.len()
            invariant
                0 <= i <= policy@.len(),
                policy_size == policy_bytes(policy@.take(i as int)),
                policy_bytes(policy@) <= usize::MAX,
            decreases policy@.len() - i,
        {
            proof {
                assert(policy@.take(i + 1).drop_last() =~= policy@.take(i as int));
                lemma_policy_bytes_prefix(policy@, i + 1);
            }
            policy_size = policy_size + policy[i].as_str().len();
            i = i + 1;
        }
        assert(policy@.take(policy@.len() as int) =~= policy@);
        let mut proofs_total: usize = 0;
        let mut k: usize = 0;
        while k < proofs.len()
            invariant
                0 <= k <= proofs@.len(),
                proofs_total == proofs_size(proofs@.take(k as int)),
                proofs_size(proofs@) <= usize::MAX,
            decreases proofs@.len() - k,
        {
            proof {
                assert(proofs@.take(k + 1).drop_last() =~= proofs@.take(k as int));
                lemma_proofs_size_prefix(proofs@, k + 1);
            }
            proofs_total = proofs_total + proofs[k].size_bytes();
            k = k + 1;
        }
        assert(proofs@.take(proofs@.len() as int) =~= proofs@);
        4 + 4 * policy.len() + policy_size + self.message.context.size_bytes() + 4 + proofs_total
            + self.signature.size_bytes()
    }
}

/// A record that `generate_with_registry` returns for sender `addr` and nonce
/// `nonce`, signed under the key pair `(secret, public)`, is accepted by
/// `verify_with_registry` for every transaction from `addr` to the address of
/// `public` with that nonce, made no earlier than the registration of each of
/// the policy's watchlists, and for every verifier policy that the record's
/// policy covers, as long as the registry is unchanged.
pub proof fn lemma_registry_record_accepted(
    vcr: VCR,
    secret: Seq<u8>,
    public: Seq<u8>,
    policy: Seq<String>,
    addr: Address,
    nonce: u64,
    m: Map<Seq<char>, WatchlistModel>,
    tx: Transaction,
    required: Seq<String>,
)
    requires
        forall|k: int| 0 <= k < policy.len() ==> entry_ok((#[trigger] policy[k])@, m, addr),
        registry_message(vcr.message, policy, public, nonce, m, addr),
        signed_record(vcr, secret, public),
        tx.addr_sender == addr,
        tx.addr_receiver@ == address_of_key(public),
        tx.nonce == nonce,
        forall|k: int| 0 <= k < policy.len() ==> m[(#[trigger] policy[k])@].registered_at <= tx.time,
        covers(policy, required),
    ensures
        vcr_accepted(vcr, tx, required, m),
{
    let msg = vcr.message;
    assert forall|k: int| 0 <= k < msg.proofs@.len() implies entry_checks(
        #[trigger] msg.proofs@[k],
        msg.policy@[k]@,
        tx,
        m,
    ) by {
        let uri = policy[k]@;
        assert(entry_ok(policy[k]@, m, addr));
        assert(m[policy[k]@].registered_at <= tx.time);
        assert(generated_proof(msg.proofs@[k], m[uri].leaves, addr));
        reveal(generated_proof);
    }
}

/// A record that `generate_with_registry` returns under the key pair
/// `(secret, public)` passes `verify(public)`: each generated proof is
/// accepted under its own root.
pub proof fn lemma_registry_record_verifies(
    vcr: VCR,
    secret: Seq<u8>,
    public: Seq<u8>,
    policy: Seq<String>,
    addr: Address,
    nonce: u64,
    m: Map<Seq<char>, WatchlistModel>,
)
    requires
        registry_message(vcr.message, policy, public, nonce, m, addr),
        signed_record(vcr, secret, public),
    ensures
        record_verifies(vcr, public),
{
    let proofs = vcr.message.proofs@;
    assert forall|k: int| 0 <= k < proofs.len() implies (#[trigger] proofs[k]).accepts(
        proofs[k].root@,
        proofs[k].addr,
    ) by {
        assert(generated_proof(proofs[k], m[policy[k]@].leaves, addr));
        reveal(generated_proof);
    }
}

/// A record that `generate` returns under the key pair `(secret, public)`
/// passes `verify(public)` exactly when each of its proofs is accepted under
/// its own root for its own address.
pub proof fn lemma_generated_record_verifies(
    vcr: VCR,
    secret: Seq<u8>,
    public: Seq<u8>,
    policy: Seq<String>,
    proofs: Seq<NonMembershipProof>,
)
    requires
        policy.len() == proofs.len(),
        vcr.message.policy@ == policy,
        vcr.message.proofs@ == proofs,
        signed_record(vcr, secret, public),
    ensures
        record_verifies(vcr, public) <==> forall|k: int|
            0 <= k < proofs.len() ==> (#[trigger] proofs[k]).accepts(proofs[k].root@, proofs[k].addr),
{
}

/// `uri` is the URI at some position of `policy`.
pub open spec fn occurs_at_some_position(policy: Seq<String>, uri: Seq<char>) -> bool {
    exists|j: int| 0 <= j < policy.len() && #[trigger] policy[j]@ == uri
}

/// Soundness of VerifyVCR: an accepted record
/// - covers the verifier's policy: every verifier URI equals a URI at some
///   position of the record's policy;
/// - is bound to the transaction: the last 20 bytes of the Keccak-256 digest
///   of the receiver key's uncompressed point (without its tag byte) are the
///   transaction's receiver, and the nonces agree;
/// - is signed: `r || s` verifies under the receiver key over the Keccak-256
///   digest of the message's JSON text;
/// - holds one proof per policy URI, and for every position `k` the proof is
///   for the transaction's sender, its root is the registry's root of the
///   `k`-th URI at the transaction's time, and it is accepted under that root.
pub proof fn lemma_vcr_accepted_sound(
    vcr: VCR,
    tx: Transaction,
    required: Seq<String>,
    m: Map<Seq<char>, WatchlistModel>,
)
    requires
        vcr_accepted(vcr, tx, required, m),
    ensures
        forall|i: int|
            0 <= i < required.len() ==> occurs_at_some_position(
                vcr.message.policy@,
                (#[trigger] required[i])@,
            ),
        keccak256_spec(sec1_uncompressed(vcr.message.context.pk_receiver@).unwrap().subrange(1, 65)).subrange(
            12,
            32,
        ) == tx.addr_receiver@,
        vcr.message.context.nonce_sender == tx.nonce,
        ecdsa_verify_spec(
            vcr.message.context.pk_receiver@,
            keccak256_spec(message_json(vcr.message)),
            vcr.signature.r@ + vcr.signature.s@,
        ),
        vcr.message.proofs@.len() == vcr.message.policy@.len(),
        forall|k: int|
            0 <= k < vcr.message.policy@.len() ==> (#[trigger] vcr.message.proofs@[k]).addr
                == tx.addr_sender && historical_root(m, vcr.message.policy@[k]@, tx.time) == Some(
                vcr.message.proofs@[k].root@,
            ) && vcr.message.proofs@[k].accepts(
                vcr.message.proofs@[k].root@,
                vcr.message.proofs@[k].addr,
            ),
{
    let p = vcr.message.policy@;
    assert forall|i: int| 0 <= i < required.len() implies occurs_at_some_position(
        p,
        (#[trigger] required[i])@,
    ) by {
        assert(in_policy(p, required[i]@));
        let j = choose|j: int| 0 <= j < p.len() && #[trigger] p[j]@ == required[i]@;
        assert(p[j]@ == required[i]@);
    }
    let q = vcr.message.proofs@;
    assert forall|k: int| 0 <= k < p.len() implies (#[trigger] q[k]).addr == tx.addr_sender
        && historical_root(m, p[k]@, tx.time) == Some(q[k].root@) && q[k].accepts(
        q[k].root@,
        q[k].addr,
    ) by {
        assert(entry_checks(q[k], p[k]@, tx, m));
    }
}

/// Completeness of VerifyVCR: a record that meets every condition of
/// `lemma_vcr_accepted_sound` is accepted.
pub proof fn lemma_vcr_accepted_complete(
    vcr: VCR,
    tx: Transaction,
    required: Seq<String>,
    m: Map<Seq<char>, WatchlistModel>,
)
    requires
        forall|i: int|
            0 <= i < required.len() ==> occurs_at_some_position(
                vcr.message.policy@,
                (#[trigger] required[i])@,
            ),
        keccak256_spec(sec1_uncompressed(vcr.message.context.pk_receiver@).unwrap().subrange(1, 65)).subrange(
            12,
            32,
        ) == tx.addr_receiver@,
        vcr.message.context.nonce_sender == tx.nonce,
        ecdsa_verify_spec(
            vcr.message.context.pk_receiver@,
            keccak256_spec(message_json(vcr.message)),
            vcr.signature.r@ + vcr.signature.s@,
        ),
        vcr.message.proofs@.len() == vcr.message.policy@.len(),
        forall|k: int|
            0 <= k < vcr.message.policy@.len() ==> (#[trigger] vcr.message.proofs@[k]).addr
                == tx.addr_sender && historical_root(m, vcr.message.policy@[k]@, tx.time) == Some(
                vcr.message.proofs@[k].root@,
            ) && vcr.message.proofs@[k].accepts(
                vcr.message.proofs@[k].root@,
                vcr.message.proofs@[k].addr,
            ),
    ensures
        vcr_accepted(vcr, tx, required, m),
{
    let p = vcr.message.policy@;
    assert forall|i: int| 0 <= i < required.len() implies in_policy(p, (#[trigger] required[i])@) by {
        assert(occurs_at_some_position(p, required[i]@));
        let j = choose|j: int| 0 <= j < p.len() && #[trigger] p[j]@ == required[i]@;
        assert(p[j]@ == required[i]@);
    }
    let q = vcr.message.proofs@;
    assert forall|k: int| 0 <= k < q.len() implies entry_checks(#[trigger] q[k], p[k]@, tx, m) by {
        assert(q[k].addr == tx.addr_sender);
    }
}

/// Coverage is membership: for a verifier policy whose URIs all occur (at any
/// position) in the record's policy, the verdict is the verdict for the
/// record's own policy; for any other verifier policy the record is rejected.
pub proof fn lemma_coverage_is_membership(
    vcr: VCR,
    tx: Transaction,
    required: Seq<String>,
    m: Map<Seq<char>, WatchlistModel>,
)
    ensures
        vcr_accepted(vcr, tx, required, m) == ((forall|i: int|
            0 <= i < required.len() ==> occurs_at_some_position(
                vcr.message.policy@,
                (#[trigger] required[i])@,
            )) && vcr_accepted(vcr, tx, vcr.message.policy@, m)),
{
    let p = vcr.message.policy@;
    if vcr_accepted(vcr, tx, required, m) {
        lemma_vcr_accepted_sound(vcr, tx, required, m);
        assert forall|i: int| 0 <= i < p.len() implies occurs_at_some_position(
            p,
            (#[trigger] p[i])@,
        ) by {
            assert(p[i]@ == p[i]@);
        }
        lemma_vcr_accepted_complete(vcr, tx, p, m);
    }
    if vcr_accepted(vcr, tx, p, m) && (forall|i: int|
        0 <= i < required.len() ==> occurs_at_some_position(p, (#[trigger] required[i])@)) {
        lemma_vcr_accepted_sound(vcr, tx, p, m);
        lemma_vcr_accepted_complete(vcr, tx, required, m);
    }
}

/// VerifyVCR only accepts records signed under the context's receiver key:
/// the signature `r || s` verifies over the Keccak-256 digest of the
/// message's JSON text.
pub proof fn lemma_accepted_is_signed(
    vcr: VCR,
    tx: Transaction,
    required: Seq<String>,
    m: Map<Seq<char>, WatchlistModel>,
)
    requires
        vcr_accepted(vcr, tx, required, m),
    ensures
        ecdsa_verify_spec(
            vcr.message.context.pk_receiver@,
            keccak256_spec(message_json(vcr.message)),
            vcr.signature.r@ + vcr.signature.s@,
        ),
{
}

/// VerifyVCR checks every policy entry: acceptance implies one proof per
/// URI, and for every position `k` the proof is for the transaction's sender,
/// its root is the registry's root of the `k`-th URI at the transaction's
/// time, and it is accepted under that root for the sender.
pub proof fn lemma_accepted_checks_every_entry(
    vcr: VCR,
    tx: Transaction,
    required: Seq<String>,
    m: Map<Seq<char>, WatchlistModel>,
    k: int,
)
    requires
        vcr_accepted(vcr, tx, required, m),
        0 <= k < vcr.message.policy@.len(),
    ensures
        vcr.message.proofs@.len() == vcr.message.policy@.len(),
        vcr.message.proofs@[k].addr == tx.addr_sender,
        m.contains_key(vcr.message.policy@[k]@),
        m[vcr.message.policy@[k]@].registered_at <= tx.time,
        vcr.message.proofs@[k].root@ == crate::tree_model::merkle_root(
            m[vcr.message.policy@[k]@].leaves,
        ),
        vcr.message.proofs@[k].accepts(vcr.message.proofs@[k].root@, tx.addr_sender),
{
    assert(entry_checks(vcr.message.proofs@[k], vcr.message.policy@[k]@, tx, m));
}

/// `verify(pk)` accepts exactly when the signature `r || s` verifies under
/// `pk` over the Keccak-256 digest of the message's JSON text, the record
/// holds one proof per policy URI, and every proof is accepted under its own
/// root for its own address.
pub proof fn lemma_record_verifies_iff(vcr: VCR, pk: Seq<u8>)
    ensures
        record_verifies(vcr, pk) <==> (ecdsa_verify_spec(
            pk,
            keccak256_spec(message_json(vcr.message)),
            vcr.signature.r@ + vcr.signature.s@,
        ) && vcr.message.proofs@.len() == vcr.message.policy@.len() && forall|k: int|
            0 <= k < vcr.message.proofs@.len() ==> (#[trigger] vcr.message.proofs@[k]).accepts(
                vcr.message.proofs@[k].root@,
                vcr.message.proofs@[k].addr,
            )),
{
}

} // verus!

use k256::ecdsa::signature::Verifier;
use rand::rngs::OsRng;
use rand::RngCore;
use sha3::{Digest, Keccak256};
use vca_eval::address::Address;
use vca_eval::keys::SigningKey;
use vca_eval::merkle::{MerkleError, SortedMerkleTree};
use vca_eval::message::message_bytes;
use vca_eval::registry::MockRegistry;
use vca_eval::vcr::{Context, Transaction, VcrError, VcrSignature, VCR};

fn addr(last: u8) -> Address {
    let mut b = [0u8; 20];
    b[19] = last;
    Address::new(b)
}

fn random_signing_key() -> SigningKey {
    loop {
        let mut b = [0u8; 32];
        OsRng.fill_bytes(&mut b);
        if let Some(sk) = SigningKey::from_bytes(b) {
            return sk;
        }
    }
}

fn sample_vcr(signing_key: &SigningKey) -> VCR {
    let pk_receiver = signing_key.verifying_key();
    let tree = SortedMerkleTree::new(vec![addr(1), addr(3), addr(5)]).unwrap();
    let policy = vec!["test://watchlist".to_string()];
    let context = Context::new(pk_receiver, 1);
    let proof = tree.generate_non_membership_proof(&addr(4)).unwrap();
    VCR::generate(signing_key, policy, context, vec![proof]).unwrap()
}

fn registry_setup() -> (SigningKey, MockRegistry, VCR, Transaction, Vec<String>) {
    let signing_key = random_signing_key();
    let tree = SortedMerkleTree::new(vec![addr(1), addr(3)]).unwrap();
    let mut registry = MockRegistry::new();
    registry.register_watchlist("test://watchlist".to_string(), tree, 1704067200);
    let policy = vec!["test://watchlist".to_string()];
    let addr_sender = addr(2);
    let vcr =
        VCR::generate_with_registry(&signing_key, policy.clone(), &addr_sender, 1, &registry).unwrap();
    let addr_receiver = vcr.message.context.receiver_address();
    let tx = Transaction { addr_sender, addr_receiver, nonce: 1, time: 1704067200, payload: vec![] };
    (signing_key, registry, vcr, tx, policy)
}

#[test]
fn test_context_creation() {
    let signing_key = random_signing_key();
    let pk_receiver = signing_key.verifying_key();

    let ctx = Context::new(pk_receiver, 1);

    assert_eq!(ctx.nonce_sender, 1);
    assert_eq!(ctx.size_bytes(), 41);
}

#[test]
fn test_context_receiver_address() {
    let signing_key = random_signing_key();
    let pk_receiver = signing_key.verifying_key();

    let ctx = Context::new(pk_receiver, 1);
    assert_eq!(ctx.receiver_address().bytes.len(), 20);
}

#[test]
fn test_vcr_generation() {
    let signing_key = random_signing_key();
    let vcr = sample_vcr(&signing_key);

    assert_eq!(vcr.message.policy.len(), 1);
    assert_eq!(vcr.message.proofs.len(), 1);
    assert_eq!(vcr.signature.size_bytes(), 65);
}

#[test]
fn test_vcr_signature_verification() {
    let signing_key = random_signing_key();
    let pk_receiver = signing_key.verifying_key();
    let tree = SortedMerkleTree::new(vec![addr(1), addr(3)]).unwrap();
    let policy = vec!["test://watchlist".to_string()];
    let context = Context::new(pk_receiver, 1);
    let proof = tree.generate_non_membership_proof(&addr(2)).unwrap();

    let vcr = VCR::generate(&signing_key, policy, context, vec![proof]).unwrap();

    assert!(vcr.verify_signature(&pk_receiver));
    assert!(vcr.verify(&pk_receiver));
}

#[test]
fn test_policy_proof_mismatch() {
    let signing_key = random_signing_key();
    let pk_receiver = signing_key.verifying_key();

    let policy = vec!["test1://watchlist".to_string(), "test2://watchlist".to_string()];
    let context = Context::new(pk_receiver, 1);

    let result = VCR::generate(&signing_key, policy, context, vec![]);
    assert!(matches!(result, Err(VcrError::PolicyProofMismatch)));
}

#[test]
fn test_vcr_with_registry() {
    let (_signing_key, registry, vcr, tx, policy) = registry_setup();

    assert_eq!(vcr.message.policy.len(), 1);
    assert_eq!(vcr.message.proofs.len(), 1);

    assert!(vcr.verify_with_registry(&tx, &policy, &registry));
}

#[test]
fn receiver_address_is_keccak_of_the_uncompressed_key() {
    let signing_key = random_signing_key();
    let ctx = Context::new(signing_key.verifying_key(), 7);

    let k256_key = k256::ecdsa::SigningKey::from_slice(&signing_key.to_bytes()).unwrap();
    let point = k256_key.verifying_key().to_encoded_point(false);
    let hash = Keccak256::digest(&point.as_bytes()[1..]);
    assert_eq!(&ctx.receiver_address().bytes[..], &hash[12..32]);
}

#[test]
fn verifying_key_matches_k256() {
    let signing_key = random_signing_key();
    let k256_key = k256::ecdsa::SigningKey::from_slice(&signing_key.to_bytes()).unwrap();
    let compressed = k256_key.verifying_key().to_encoded_point(true);
    assert_eq!(&signing_key.verifying_key().to_compressed()[..], compressed.as_bytes());
    let uncompressed = k256_key.verifying_key().to_encoded_point(false);
    assert_eq!(&signing_key.verifying_key().to_uncompressed()[..], uncompressed.as_bytes());
}

#[test]
fn zero_secret_is_not_a_key() {
    assert!(SigningKey::from_bytes([0u8; 32]).is_none());
}

#[test]
fn signature_is_over_the_keccak_digest_of_the_message() {
    let signing_key = random_signing_key();
    let vcr = sample_vcr(&signing_key);
    let digest = Keccak256::digest(message_bytes(&vcr.message));
    let mut sig = [0u8; 64];
    sig[..32].copy_from_slice(&vcr.signature.r);
    sig[32..].copy_from_slice(&vcr.signature.s);
    let signature = k256::ecdsa::Signature::from_slice(&sig).unwrap();
    let k256_key = k256::ecdsa::SigningKey::from_slice(&signing_key.to_bytes()).unwrap();
    assert!(k256_key.verifying_key().verify(&digest, &signature).is_ok());
    assert_eq!(vcr.signature.v, 0);
}

#[test]
fn other_key_does_not_verify() {
    let signing_key = random_signing_key();
    let vcr = sample_vcr(&signing_key);
    let other = random_signing_key().verifying_key();
    assert!(!vcr.verify_signature(&other));
    assert!(!vcr.verify(&other));
}

#[test]
fn changed_message_does_not_verify() {
    let signing_key = random_signing_key();
    let pk = signing_key.verifying_key();
    let mut vcr = sample_vcr(&signing_key);
    assert!(vcr.verify(&pk));
    vcr.message.context.nonce_sender = 2;
    assert!(!vcr.verify_signature(&pk));

    let mut vcr = sample_vcr(&signing_key);
    vcr.message.policy[0] = "test://other".to_string();
    assert!(!vcr.verify(&pk));
}

#[test]
fn verify_rejects_a_proof_that_does_not_hold() {
    let signing_key = random_signing_key();
    let pk_receiver = signing_key.verifying_key();
    let tree = SortedMerkleTree::new(vec![addr(1), addr(3), addr(5)]).unwrap();
    let mut proof = tree.generate_non_membership_proof(&addr(4)).unwrap();
    proof.addr = addr(6);
    let vcr = VCR::generate(
        &signing_key,
        vec!["test://watchlist".to_string()],
        Context::new(pk_receiver, 1),
        vec![proof],
    )
    .unwrap();
    assert!(vcr.verify_signature(&pk_receiver));
    assert!(!vcr.verify(&pk_receiver));
}

#[test]
fn empty_uri_is_invalid() {
    let signing_key = random_signing_key();
    let pk_receiver = signing_key.verifying_key();
    let tree = SortedMerkleTree::new(vec![addr(1), addr(3)]).unwrap();
    let proof = tree.generate_non_membership_proof(&addr(2)).unwrap();
    let result = VCR::generate(&signing_key, vec![String::new()], Context::new(pk_receiver, 1), vec![proof]);
    match result {
        Err(VcrError::InvalidPolicy(msg)) => assert_eq!(msg, "Empty URI"),
        _ => panic!("expected InvalidPolicy"),
    }
}

#[test]
fn registry_generation_errors_come_from_the_first_bad_entry() {
    let signing_key = random_signing_key();
    let tree = SortedMerkleTree::new(vec![addr(2), addr(4), addr(6)]).unwrap();
    let mut registry = MockRegistry::new();
    registry.register_watchlist("test://watchlist".to_string(), tree, 10);

    let ok = "test://watchlist".to_string();
    let missing = "missing://list".to_string();

    let r = VCR::generate_with_registry(&signing_key, vec![ok.clone(), String::new(), missing.clone()], &addr(3), 1, &registry);
    match r {
        Err(VcrError::InvalidPolicy(msg)) => assert_eq!(msg, "Empty URI"),
        _ => panic!("expected InvalidPolicy"),
    }

    let r = VCR::generate_with_registry(&signing_key, vec![ok.clone(), missing.clone(), String::new()], &addr(3), 1, &registry);
    match r {
        Err(VcrError::WatchlistNotFound(uri)) => assert_eq!(uri, missing),
        _ => panic!("expected WatchlistNotFound"),
    }

    let r = VCR::generate_with_registry(&signing_key, vec![ok.clone()], &addr(4), 1, &registry);
    match r {
        Err(VcrError::MerkleError(MerkleError::AddressExists(a))) => assert_eq!(a, addr(4)),
        _ => panic!("expected AddressExists"),
    }

    let r = VCR::generate_with_registry(&signing_key, vec![ok.clone()], &addr(7), 1, &registry);
    assert!(matches!(r, Err(VcrError::MerkleError(MerkleError::OutOfRange))));

    let r = VCR::generate_with_registry(&signing_key, vec![ok.clone(), ok.clone()], &addr(3), 9, &registry);
    let vcr = r.unwrap();
    assert_eq!(vcr.message.proofs.len(), 2);
    assert_eq!(vcr.message.context.nonce_sender, 9);
    assert!(vcr.verify(&signing_key.verifying_key()));
}

#[test]
fn verify_with_registry_rejects_mismatches() {
    let (_signing_key, registry, vcr, tx, policy) = registry_setup();
    assert!(vcr.verify_with_registry(&tx, &policy, &registry));

    let mut bad = tx.clone();
    bad.nonce = 2;
    assert!(!vcr.verify_with_registry(&bad, &policy, &registry));

    let mut bad = tx.clone();
    bad.addr_receiver = addr(9);
    assert!(!vcr.verify_with_registry(&bad, &policy, &registry));

    let mut bad = tx.clone();
    bad.addr_sender = addr(9);
    assert!(!vcr.verify_with_registry(&bad, &policy, &registry));

    let mut bad = tx.clone();
    bad.time = 1704067199;
    assert!(!vcr.verify_with_registry(&bad, &policy, &registry));

    let uncovered = vec!["test://watchlist".to_string(), "test://other".to_string()];
    assert!(!vcr.verify_with_registry(&tx, &uncovered, &registry));

    assert!(vcr.verify_with_registry(&tx, &vec![], &registry));
    assert!(!vcr.verify_with_registry(&tx, &policy, &MockRegistry::new()));

    let mut later = tx.clone();
    later.time = 1800000000;
    assert!(vcr.verify_with_registry(&later, &policy, &registry));
}

#[test]
fn vcr_size_in_bytes() {
    let signing_key = random_signing_key();
    let vcr = sample_vcr(&signing_key);
    assert_eq!(vcr.message.proofs[0].size_bytes(), 209);
    assert_eq!(vcr.size_bytes(), 4 + 4 + 16 + 41 + 4 + 209 + 65);
    assert_eq!(vcr.size_bytes(), vca_eval::encoding::calculate_vcr_size(&vcr));
}

#[test]
fn signature_from_bytes_splits_r_and_s() {
    let mut sig = [0u8; 64];
    for (i, b) in sig.iter_mut().enumerate() {
        *b = i as u8;
    }
    let s = VcrSignature::from_signature(&sig, 1);
    assert_eq!(&s.r[..], &sig[..32]);
    assert_eq!(&s.s[..], &sig[32..]);
    assert_eq!(s.v, 1);
    assert_eq!(s.size_bytes(), 65);
}

#[test]
fn merkle_error_converts() {
    let e: VcrError = VcrError::from(MerkleError::OutOfRange);
    assert!(matches!(e, VcrError::MerkleError(MerkleError::OutOfRange)));
}

#[test]
fn message_bytes_are_compact_json() {
    let signing_key = random_signing_key();
    let vcr = sample_vcr(&signing_key);
    let text = String::from_utf8(message_bytes(&vcr.message)).unwrap();
    let pk = vcr.message.context.pk_receiver.to_compressed();
    let pk_list: Vec<String> = pk.iter().map(|b| b.to_string()).collect();
    let prefix = format!(
        "{{\"policy\":[\"test://watchlist\"],\"context\":{{\"pk_receiver\":[{}],\"nonce_sender\":1}},\"proofs\":[{{\"addr\":\"0x0000000000000000000000000000000000000004\",\"root\":[",
        pk_list.join(",")
    );
    assert!(text.starts_with(&prefix), "{}", text);
    assert!(text.contains("\"left_addr\":\"0x0000000000000000000000000000000000000003\",\"right_addr\":\"0x0000000000000000000000000000000000000005\",\"left_path\":[["));
    assert!(text.contains("\"left_indices\":[true,false],\"right_lower_path\":[["));
    assert!(text.ends_with("]],\"divergence_level\":1}]}"));
}

#[test]
fn message_strings_are_escaped() {
    let signing_key = random_signing_key();
    let mut vcr = sample_vcr(&signing_key);
    vcr.message.policy = vec!["a\"b\\c\nd\u{1}é".to_string()];
    vcr.message.proofs = vec![];
    let text = String::from_utf8(message_bytes(&vcr.message)).unwrap();
    assert!(text.starts_with("{\"policy\":[\"a\\\"b\\\\c\\nd\\u0001é\"],\"context\":"), "{}", text);
    assert!(text.ends_with(",\"proofs\":[]}"));
}

#[test]
fn empty_record_size_matches_encoding() {
    let signing_key = random_signing_key();
    let vcr = VCR::generate(&signing_key, vec![], Context::new(signing_key.verifying_key(), 3), vec![]).unwrap();
    assert_eq!(vcr.size_bytes(), 114);
    assert_eq!(vca_eval::encoding::encode_vcr(&vcr).len(), 114);
}

#[test]
fn registry_verification_needs_one_proof_per_policy_entry() {
    let signing_key = SigningKey::from_bytes([1u8; 32]).unwrap();
    let tree = SortedMerkleTree::new(vec![addr(1), addr(3)]).unwrap();
    let proof = tree.generate_non_membership_proof(&addr(2)).unwrap();
    let mut registry = MockRegistry::new();
    registry.register_watchlist("a://1".to_string(), tree, 100);

    // Two policy URIs, one proof: generation refuses it, and a record built
    // by other means is not accepted.
    let policy = vec!["a://1".to_string(), "b://2".to_string()];
    let context = Context::new(signing_key.verifying_key(), 1);
    assert!(matches!(
        VCR::generate(&signing_key, policy.clone(), context, vec![proof.clone()]),
        Err(VcrError::PolicyProofMismatch)
    ));
    let signed = VCR::generate(&signing_key, vec!["a://1".to_string()], context, vec![proof]).unwrap();
    let mut vcr = signed.clone();
    vcr.message.policy = policy;
    let tx = Transaction {
        addr_sender: addr(2),
        addr_receiver: context.receiver_address(),
        nonce: 1,
        time: 100,
        payload: vec![],
    };
    assert!(!vcr.verify_with_registry(&tx, &vec!["b://2".to_string()], &registry));
    assert!(signed.verify_with_registry(&tx, &vec!["a://1".to_string()], &registry));
}

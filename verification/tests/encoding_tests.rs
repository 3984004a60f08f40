use rand::rngs::OsRng;
use rand::RngCore;
use vca_eval::address::Address;
use vca_eval::encoding::{
    calculate_vcr_size, encode_bit_vector, encode_context, encode_proof, encode_uri, encode_vcr,
    estimate_calldata_gas, estimate_vcr_gas, GasEstimate,
};
use vca_eval::keys::SigningKey;
use vca_eval::merkle::SortedMerkleTree;
use vca_eval::vcr::{Context, VCR};

fn addr(last: u8) -> Address {
    let mut b = [0u8; 20];
    b[19] = last;
    Address::new(b)
}

fn random_signing_key() -> SigningKey {
    loop {
        let mut b = [0u8; 32];
        OsRng.fill_bytes(&mut b);
        if let Some(sk) = SigningKey::from_bytes(b) {
            return sk;
        }
    }
}

fn sample_vcr(leaves: Vec<Address>, target: Address) -> VCR {
    let signing_key = random_signing_key();
    let pk_receiver = signing_key.verifying_key();
    let tree = SortedMerkleTree::new(leaves).unwrap();
    let policy = vec!["test://watchlist".to_string()];
    let context = Context::new(pk_receiver, 1);
    let proof = tree.generate_non_membership_proof(&target).unwrap();
    VCR::generate(&signing_key, policy, context, vec![proof]).unwrap()
}

#[test]
fn test_encode_context() {
    let signing_key = random_signing_key();
    let pk_receiver = signing_key.verifying_key();

    let context = Context::new(pk_receiver, 1);

    let encoded = encode_context(&context);
    assert_eq!(encoded.len(), 41);
}

#[test]
fn test_encode_uri() {
    let uri = "ofac://2024-01";
    let encoded = encode_uri(uri);

    assert_eq!(encoded.len(), 4 + uri.len());
}

#[test]
fn test_bit_vector_encoding() {
    let bits = vec![true, false, true, true, false, false, true, false];
    let encoded = encode_bit_vector(&bits);

    assert_eq!(encoded.len(), 5);
    assert_eq!(encoded[4], 0b01001101);
}

#[test]
fn test_vcr_encoding_and_size() {
    let vcr = sample_vcr(vec![addr(1), addr(3), addr(5)], addr(4));

    let encoded = encode_vcr(&vcr);
    let size = calculate_vcr_size(&vcr);

    assert_eq!(encoded.len(), size);
    assert!(size > 0);
}

#[test]
fn test_gas_estimation() {
    let zeros = vec![0u8; 100];
    let gas = estimate_calldata_gas(&zeros);
    assert_eq!(gas, 400);

    let ones = vec![1u8; 100];
    let gas = estimate_calldata_gas(&ones);
    assert_eq!(gas, 1600);

    let mixed = vec![0u8, 1u8, 0u8, 1u8];
    let gas = estimate_calldata_gas(&mixed);
    assert_eq!(gas, 40);
}

#[test]
fn test_gas_estimate_struct() {
    let data = vec![0u8, 0u8, 1u8, 2u8, 3u8];
    let estimate = GasEstimate::from_data(&data);

    assert_eq!(estimate.size_bytes, 5);
    assert_eq!(estimate.zero_bytes, 2);
    assert_eq!(estimate.nonzero_bytes, 3);
    assert_eq!(estimate.total_gas, 56);
}

#[test]
fn test_vcr_gas_estimate() {
    let vcr = sample_vcr(vec![addr(1), addr(3)], addr(2));

    let estimate = GasEstimate::from_vcr(&vcr);

    assert!(estimate.size_bytes > 0);
    assert!(estimate.total_gas > 0);
    assert_eq!(estimate.size_bytes, estimate.zero_bytes + estimate.nonzero_bytes);
}

#[test]
fn uri_encoding_bytes() {
    assert_eq!(encode_uri("ab"), vec![0, 0, 0, 2, 97, 98]);
    assert_eq!(encode_uri(""), vec![0, 0, 0, 0]);
    assert_eq!(encode_uri("é"), vec![0, 0, 0, 2, 0xc3, 0xa9]);
}

#[test]
fn bit_vector_edge_cases() {
    assert_eq!(encode_bit_vector(&[]), vec![0, 0, 0, 0]);
    assert_eq!(encode_bit_vector(&[true]), vec![0, 0, 0, 1, 1]);
    let nine = [false, false, false, false, false, false, false, true, true];
    assert_eq!(encode_bit_vector(&nine), vec![0, 0, 0, 9, 0x80, 0x01]);
    let many = vec![true; 300];
    let encoded = encode_bit_vector(&many);
    assert_eq!(&encoded[..4], &[0, 0, 1, 44]);
    assert_eq!(encoded.len(), 4 + 38);
    assert_eq!(encoded[4 + 37], 0x0f);
}

#[test]
fn context_encoding_bytes() {
    let signing_key = random_signing_key();
    let pk = signing_key.verifying_key();
    let encoded = encode_context(&Context::new(pk, 0x0102030405060708));
    assert_eq!(&encoded[..33], &pk.to_compressed()[..]);
    assert_eq!(&encoded[33..], &[1, 2, 3, 4, 5, 6, 7, 8]);
}

#[test]
fn proof_encoding_layout() {
    let tree = SortedMerkleTree::new(vec![addr(1), addr(3), addr(5), addr(7)]).unwrap();
    let proof = tree.generate_non_membership_proof(&addr(4)).unwrap();
    let encoded = encode_proof(&proof);
    assert_eq!(encoded.len(), proof.size_bytes());
    assert_eq!(&encoded[..20], &addr(4).bytes);
    assert_eq!(&encoded[20..52], &tree.root());
    assert_eq!(&encoded[52..72], &addr(3).bytes);
    assert_eq!(&encoded[72..92], &addr(5).bytes);
    assert_eq!(&encoded[92..96], &[0, 0, 0, 2]);
    assert_eq!(&encoded[96..128], &proof.left_path[0]);
    assert_eq!(&encoded[128..160], &proof.left_path[1]);
    assert_eq!(&encoded[160..165], &[0, 0, 0, 2, 1]);
    assert_eq!(&encoded[165..169], &[0, 0, 0, 1]);
    assert_eq!(&encoded[169..201], &proof.right_lower_path[0]);
    assert_eq!(&encoded[201..209], &[0, 0, 0, 0, 0, 0, 0, 1]);
}

#[test]
fn vcr_encoding_layout() {
    let vcr = sample_vcr(vec![addr(1), addr(3), addr(5)], addr(4));
    let encoded = encode_vcr(&vcr);
    assert_eq!(calculate_vcr_size(&vcr), 4 + 20 + 41 + 4 + 209 + 65);
    assert_eq!(&encoded[..4], &[0, 0, 0, 1]);
    assert_eq!(&encoded[4..24], &encode_uri("test://watchlist")[..]);
    assert_eq!(&encoded[24..65], &encode_context(&vcr.message.context)[..]);
    assert_eq!(&encoded[65..69], &[0, 0, 0, 1]);
    assert_eq!(&encoded[69..278], &encode_proof(&vcr.message.proofs[0])[..]);
    assert_eq!(&encoded[278..310], &vcr.signature.r);
    assert_eq!(&encoded[310..342], &vcr.signature.s);
    assert_eq!(encoded[342], vcr.signature.v);
}

#[test]
fn gas_counts_agree() {
    let vcr = sample_vcr(vec![addr(1), addr(3)], addr(2));
    let encoded = encode_vcr(&vcr);
    let estimate = GasEstimate::from_vcr(&vcr);
    assert_eq!(estimate_vcr_gas(&vcr), estimate_calldata_gas(&encoded));
    assert_eq!(estimate.total_gas, estimate_vcr_gas(&vcr));
    assert_eq!(estimate.total_gas, 4 * estimate.zero_bytes as u64 + 16 * estimate.nonzero_bytes as u64);
    assert_eq!(estimate.size_bytes, encoded.len());

    let data = [7u8, 0, 0, 9];
    assert_eq!(GasEstimate::from_data(&data).total_gas, estimate_calldata_gas(&data));
    assert_eq!(estimate_calldata_gas(&[]), 0);
}

#[test]
fn packed_bits_can_be_read_back() {
    let bits: Vec<bool> = (0..21).map(|i| i % 3 == 0 || i % 5 == 1).collect();
    let encoded = encode_bit_vector(&bits);
    assert_eq!(encoded.len(), 4 + 3);
    assert_eq!(&encoded[..4], &(21u32).to_be_bytes());
    for (i, b) in bits.iter().enumerate() {
        assert_eq!((encoded[4 + i / 8] >> (i % 8)) & 1 == 1, *b);
    }
    for t in 5..8 {
        assert_eq!((encoded[4 + 2] >> t) & 1, 0);
    }
}

#[test]
fn gas_bounds_and_additivity() {
    let a = [0u8, 5, 0, 0, 9];
    let b = [1u8, 0];
    let mut ab = a.to_vec();
    ab.extend_from_slice(&b);
    assert_eq!(estimate_calldata_gas(&ab), estimate_calldata_gas(&a) + estimate_calldata_gas(&b));
    let g = estimate_calldata_gas(&ab);
    assert!(4 * ab.len() as u64 <= g && g <= 16 * ab.len() as u64);
}

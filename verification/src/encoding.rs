//! Calldata encoding of records and its gas cost.
//!
//! A simplified binary layout for size and gas estimates: counts and lengths
//! are 4-byte big-endian prefixes, the nonce and the divergence level 8-byte
//! big-endian numbers, path directions are packed eight to a byte (first bit
//! in the least significant place), everything else is copied as raw bytes.

use crate::merkle::NonMembershipProof;
use crate::tree_model::words;
use crate::vcr::{policy_bytes, proofs_size, vcr_size, Context, VCR};
use vstd::arithmetic::power2::{lemma2_to64, pow2};
use vstd::bits::lemma_u8_shl_is_mul;
use vstd::prelude::*;
use vstd::utf8::encode_utf8;

verus! {

/// Big-endian bytes of a 32-bit number.
pub open spec fn be32(x: u32) -> Seq<u8> {
    seq![
        (x / 0x100_0000) as u8,
        (x / 0x1_0000 % 0x100) as u8,
        (x / 0x100 % 0x100) as u8,
        (x % 0x100) as u8,
    ]
}

/// Big-endian bytes of a 64-bit number.
pub open spec fn be64(x: u64) -> Seq<u8> {
    be32((x / 0x1_0000_0000) as u32) + be32((x % 0x1_0000_0000) as u32)
}

/// Byte strings one after the other.
pub open spec fn concat(items: Seq<Seq<u8>>) -> Seq<u8>
    decreases items.len(),
{
    if items.len() == 0 {
        seq![]
    } else {
        concat(items.drop_last()) + items.last()
    }
}

/// The number whose bit `t` is `chunk[t]`.
pub open spec fn pack_byte(chunk: Seq<bool>) -> nat
    decreases chunk.len(),
{
    if chunk.len() == 0 {
        0
    } else {
        pack_byte(chunk.drop_last()) + if chunk.last() {
            pow2((chunk.len() - 1) as nat)
        } else {
            0
        }
    }
}

/// The `j`-th group of eight bits (the last group may be shorter).
pub open spec fn chunk(bits: Seq<bool>, j: int) -> Seq<bool> {
    bits.subrange(
        8 * j,
        if 8 * j + 8 <= bits.len() {
            8 * j + 8
        } else {
            bits.len() as int
        },
    )
}

/// Bits packed eight to a byte, the first of each group in the least
/// significant place.
pub open spec fn pack_bits(bits: Seq<bool>) -> Seq<u8> {
    Seq::new((bits.len() + 7) / 8, |j: int| pack_byte(chunk(bits, j)) as u8)
}

/// A bit vector: its length (4 bytes, big-endian, truncated to 32 bits)
/// and its packed bits.
pub open spec fn bit_vector_encoding(bits: Seq<bool>) -> Seq<u8> {
    be32(bits.len() as u32) + pack_bits(bits)
}

/// A URI: its byte length (4 bytes) and its UTF-8 bytes.
pub open spec fn uri_encoding(uri: Seq<char>) -> Seq<u8> {
    be32(encode_utf8(uri).len() as u32) + encode_utf8(uri)
}

/// A context: the 33-byte compressed key and the 8-byte nonce.
pub open spec fn context_encoding(c: Context) -> Seq<u8> {
    c.pk_receiver@ + be64(c.nonce_sender)
}

/// A proof: the queried address, the root, the bounding addresses, the left
/// path with its length, the left directions as a bit vector, the right lower
/// path with its length, and the divergence level.
pub open spec fn proof_encoding(p: NonMembershipProof) -> Seq<u8> {
    p.addr@ + p.root@ + p.left_addr@ + p.right_addr@ + be32(p.left_path@.len() as u32) + concat(
        words(p.left_path@),
    ) + bit_vector_encoding(p.left_indices@) + be32(p.right_lower_path@.len() as u32) + concat(
        words(p.right_lower_path@),
    ) + be64(p.divergence_level as u64)
}

/// A record: the URI count and the URIs, the context, the proof count and
/// the proofs, then `r`, `s` and `v`.
pub open spec fn vcr_encoding(vcr: VCR) -> Seq<u8> {
    let m = vcr.message;
    be32(m.policy@.len() as u32) + concat(
        Seq::new(m.policy@.len(), |i: int| uri_encoding(m.policy@[i]@)),
    ) + context_encoding(m.context) + be32(m.proofs@.len() as u32) + concat(
        Seq::new(m.proofs@.len(), |i: int| proof_encoding(m.proofs@[i])),
    ) + vcr.signature.r@ + vcr.signature.s@ + seq![vcr.signature.v]
}

fn push_be32(out: &mut Vec<u8>, x: u32)
    ensures
        final(out)@ == old(out)@ + be32(x),
{
    out.push((x / 0x100_0000) as u8);
    out.push((x / 0x1_0000 % 0x100) as u8);
    out.push((x / 0x100 % 0x100) as u8);
    out.push((x % 0x100) as u8);
    assert(final(out)@ =~= old(out)@ + be32(x));
}

fn push_be64(out: &mut Vec<u8>, x: u64)
    ensures
        final(out)@ == old(out)@ + be64(x),
{
    push_be32(out, (x / 0x1_0000_0000) as u32);
    push_be32(out, (x % 0x1_0000_0000) as u32);
    assert(final(out)@ =~= old(out)@ + be64(x));
}

fn push_bytes(out: &mut Vec<u8>, s: &[u8])
    ensures
        final(out)@ == old(out)@ + s@,
{
    let ghost start = out@;
    let mut i: usize = 0;
    while i < s.len()
        invariant
            0 <= i <= s@.len(),
            out@ == start + s@.take(i as int),
        decreases s@.len() - i,
    {
        out.push(s[i]);
        assert(start + s@.take(i + 1) =~= (start + s@.take(i as int)).push(s@[i as int]));
        i = i + 1;
    }
    assert(s@.take(s@.len() as int) =~= s@);
}

fn push_words(out: &mut Vec<u8>, ws: &[[u8; 32]])
    ensures
        final(out)@ == old(out)@ + concat(words(ws@)),
{
    let ghost start = out@;
    let mut i: usize = 0;
    while i < ws.len()
        invariant
            0 <= i <= ws@.len(),
            out@ == start + concat(words(ws@).take(i as int)),
        decreases ws@.len() - i,
    {
        push_bytes(out, ws[i].as_slice());
        proof {
            assert(words(ws@).take(i + 1).drop_last() =~= words(ws@).take(i as int));
            assert(out@ =~= start + concat(words(ws@).take(i + 1)));
        }
        i = i + 1;
    }
    assert(words(ws@).take(ws@.len() as int) =~= words(ws@));
}

/// `pack_byte` of `n` bits is below `2^n`.
proof fn lemma_pack_byte_bound(c: Seq<bool>)
    ensures
        pack_byte(c) < pow2(c.len()),
    decreases c.len(),
{
    reveal(pow2);
    if c.len() > 0 {
        lemma_pack_byte_bound(c.drop_last());
        vstd::arithmetic::power2::lemma_pow2_unfold(c.len());
    } else {
        lemma2_to64();
    }
}

/// Setting bit `k` of a byte whose higher bits are clear adds `2^k`.
proof fn lemma_set_bit(b: u8, k: u8)
    requires
        k < 8,
        b < pow2(k as nat),
    ensures
        (1u8 << k) == pow2(k as nat),
        (b | (1u8 << k)) == b + pow2(k as nat),
{
    lemma2_to64();
    assert(pow2(k as nat) <= 128) by {
        lemma2_to64();
    }
    lemma_u8_shl_is_mul(1u8, k);
    let m: u8 = 1u8 << k;
    assert(b < m && m == (1u8 << k) && k < 8 ==> (b | m) == b + m) by (bit_vector);
}

/// Encode a bit vector: its length (4 bytes, big-endian) and its bits packed
/// eight to a byte, the first in the least significant place.
pub fn encode_bit_vector(bits: &[bool]) -> (r: Vec<u8>)
    ensures
        r@ == bit_vector_encoding(bits@),
{
    let mut encoded: Vec<u8> = Vec::new();
    push_be32(&mut encoded, bits.len() as u32);
    let ghost prefix = encoded@;
    let mut current_byte: u8 = 0;
    let mut bit_index: u8 = 0;
    let ghost mut done: int = 0;
    let mut i: usize = 0;
    while i < bits.len()
        invariant
            0 <= i <= bits@.len(),
            prefix == be32(bits@.len() as u32),
            bit_index < 8,
            done % 8 == 0,
            done + bit_index == i,
            encoded@ == prefix + pack_bits(bits@.take(done)),
            current_byte == pack_byte(bits@.subrange(done, i as int)),
        decreases bits@.len() - i,
    {
        let ghost before = bits@.subrange(done, i as int);
        proof {
            assert(bits@.subrange(done, i + 1).drop_last() =~= before);
            lemma_pack_byte_bound(before);
        }
        if bits[i] {
            proof {
                lemma_set_bit(current_byte, bit_index);
            }
            current_byte = current_byte | (1u8 << bit_index);
        }
        proof {
            lemma_pack_byte_bound(bits@.subrange(done, i + 1));
            lemma2_to64();
            assert(current_byte == pack_byte(bits@.subrange(done, i + 1)));
        }
        bit_index = bit_index + 1;
        if bit_index == 8 {
            proof {
                let t = bits@.take(done + 8);
                let a = done / 8;
                assert(chunk(t, a) =~= bits@.subrange(done, done + 8));
                assert forall|j: int| 0 <= j < a implies chunk(t, j) =~= chunk(
                    bits@.take(done),
                    j,
                ) by {}
                assert(pack_bits(t) =~= pack_bits(bits@.take(done)).push(current_byte));
            }
            encoded.push(current_byte);
            current_byte = 0;
            bit_index = 0;
            proof {
                done = done + 8;
                assert(bits@.subrange(done, done) =~= Seq::<bool>::empty());
            }
        }
        i = i + 1;
    }
    if bit_index > 0 {
        proof {
            let a = done / 8;
            assert(chunk(bits@, a) =~= bits@.subrange(done, bits@.len() as int));
            assert forall|j: int| 0 <= j < a implies chunk(bits@, j) =~= chunk(
                bits@.take(done),
                j,
            ) by {}
            assert(pack_bits(bits@) =~= pack_bits(bits@.take(done)).push(current_byte));
        }
        encoded.push(current_byte);
    } else {
        assert(bits@.take(done) =~= bits@);
    }
    encoded
}

/// Encode a URI: its byte length (4 bytes, big-endian) and its UTF-8 bytes.
pub fn encode_uri(uri: &str) -> (r: Vec<u8>)
    ensures
        r@ == uri_encoding(uri@),
{
    let mut encoded: Vec<u8> = Vec::new();
    let uri_bytes = uri.as_bytes();
    push_be32(&mut encoded, uri_bytes.len() as u32);
    push_bytes(&mut encoded, uri_bytes);
    encoded
}

/// Encode a context: the 33-byte compressed key, then the nonce (8 bytes,
/// big-endian).
pub fn encode_context(context: &Context) -> (r: Vec<u8>)
    ensures
        r@ == context_encoding(*context),
{
    let mut encoded: Vec<u8> = Vec::new();
    let pk_bytes = context.pk_receiver.to_compressed();
    push_bytes(&mut encoded, pk_bytes.as_slice());
    push_be64(&mut encoded, context.nonce_sender);
    encoded
}

/// Encode a non-membership proof (the right leaf's path only below the
/// divergence level).
pub fn encode_proof(proof: &NonMembershipProof) -> (r: Vec<u8>)
    ensures
        r@ == proof_encoding(*proof),
{
    let mut encoded: Vec<u8> = Vec::new();
    push_bytes(&mut encoded, proof.addr.bytes.as_slice());
    push_bytes(&mut encoded, proof.root.as_slice());
    push_bytes(&mut encoded, proof.left_addr.bytes.as_slice());
    push_bytes(&mut encoded, proof.right_addr.bytes.as_slice());
    push_be32(&mut encoded, proof.left_path.len() as u32);
    push_words(&mut encoded, proof.left_path.as_slice());
    let indices = encode_bit_vector(proof.left_indices.as_slice());
    push_bytes(&mut encoded, indices.as_slice());
    push_be32(&mut encoded, proof.right_lower_path.len() as u32);
    push_words(&mut encoded, proof.right_lower_path.as_slice());
    push_be64(&mut encoded, proof.divergence_level as u64);
    assert(encoded@ =~= proof_encoding(*proof));
    encoded
}

/// Encode a record for calldata.
pub fn encode_vcr(vcr: &VCR) -> (r: Vec<u8>)
    ensures
        r@ == vcr_encoding(*vcr),
{
    let policy = &vcr.message.policy;
    let proofs = &vcr.message.proofs;
    let ghost uris = Seq::new(policy@.len(), |i: int| uri_encoding(policy@[i]@));
    let ghost proof_items = Seq::new(proofs@.len(), |i: int| proof_encoding(proofs@[i]));
    let mut encoded: Vec<u8> = Vec::new();
    push_be32(&mut encoded, policy.len() as u32);
    let ghost start = encoded@;
    let mut i: usize = 0;
    while i < policy.len()
        invariant
            0 <= i <= policy@.len(),
            uris == Seq::new(policy@.len(), |i: int| uri_encoding(policy@[i]@)),
            encoded@ == start + concat(uris.take(i as int)),
        decreases policy@.len() - i,
    {
        let uri = encode_uri(policy[i].as_str());
        push_bytes(&mut encoded, uri.as_slice());
        proof {
            assert(uris.take(i + 1).drop_last() =~= uris.take(i as int));
            assert(encoded@ =~= start + concat(uris.take(i + 1)));
        }
        i = i + 1;
    }
    assert(uris.take(policy@.len() as int) =~= uris);
    let context = encode_context(&vcr.message.context);
    push_bytes(&mut encoded, context.as_slice());
    push_be32(&mut encoded, proofs.len() as u32);
    let ghost middle = encoded@;
    let mut k: usize = 0;
    while k < proofs.len()
        invariant
            0 <= k <= proofs@.len(),
            proof_items == Seq::new(proofs@.len(), |i: int| proof_encoding(proofs@[i])),
            encoded@ == middle + concat(proof_items.take(k as int)),
        decreases proofs@.len() - k,
    {
        let p = encode_proof(&proofs[k]);
        push_bytes(&mut encoded, p.as_slice());
        proof {
            assert(proof_items.take(k + 1).drop_last() =~= proof_items.take(k as int));
            assert(encoded@ =~= middle + concat(proof_items.take(k + 1)));
        }
        k = k + 1;
    }
    assert(proof_items.take(proofs@.len() as int) =~= proof_items);
    push_bytes(&mut encoded, vcr.signature.r.as_slice());
    push_bytes(&mut encoded, vcr.signature.s.as_slice());
    encoded.push(vcr.signature.v);
    assert(encoded@ =~= vcr_encoding(*vcr));
    encoded
}

/// Size of the encoded record in bytes.
pub fn calculate_vcr_size(vcr: &VCR) -> (r: usize)
    ensures
        r == vcr_encoding(*vcr).len(),
{
    encode_vcr(vcr).len()
}

/// Calldata gas of one byte: 4 for a zero byte, 16 otherwise.
pub open spec fn byte_gas(b: u8) -> nat {
    if b == 0 {
        4
    } else {
        16
    }
}

/// Calldata gas of a byte string.
pub open spec fn calldata_gas(data: Seq<u8>) -> nat
    decreases data.len(),
{
    if data.len() == 0 {
        0
    } else {
        calldata_gas(data.drop_last()) + byte_gas(data.last())
    }
}

/// Number of zero bytes.
pub open spec fn zero_count(data: Seq<u8>) -> nat
    decreases data.len(),
{
    if data.len() == 0 {
        0
    } else {
        zero_count(data.drop_last()) + if data.last() == 0 {
            1nat
        } else {
            0nat
        }
    }
}

proof fn lemma_calldata_gas_prefix(data: Seq<u8>, i: int)
    requires
        0 <= i <= data.len(),
    ensures
        calldata_gas(data.take(i)) <= calldata_gas(data),
    decreases data.len() - i,
{
    if i < data.len() {
        lemma_calldata_gas_prefix(data, i + 1);
        assert(data.take(i + 1).drop_last() =~= data.take(i));
    } else {
        assert(data.take(i) =~= data);
    }
}

proof fn lemma_zero_count_bound(data: Seq<u8>)
    ensures
        zero_count(data) <= data.len(),
    decreases data.len(),
{
    if data.len() > 0 {
        lemma_zero_count_bound(data.drop_last());
    }
}

/// Calldata gas counts 4 per zero byte and 16 per other byte:
/// `calldata_gas(d) == 4 * zeros + 16 * (len - zeros)`.
pub proof fn lemma_gas_by_counts(data: Seq<u8>)
    ensures
        zero_count(data) <= data.len(),
        calldata_gas(data) == 4 * zero_count(data) + 16 * (data.len() - zero_count(data)),
    decreases data.len(),
{
    lemma_zero_count_bound(data);
    if data.len() > 0 {
        lemma_gas_by_counts(data.drop_last());
    }
}

/// Estimate the calldata gas of `data`: 4 per zero byte, 16 per other byte.
pub fn estimate_calldata_gas(data: &[u8]) -> (r: u64)
    requires
        calldata_gas(data@) <= u64::MAX,
    ensures
        r == calldata_gas(data@),
{
    let mut total: u64 = 0;
    let mut i: usize = 0;
    while i < data.len()
        invariant
            0 <= i <= data@.len(),
            total == calldata_gas(data@.take(i as int)),
            calldata_gas(data@) <= u64::MAX,
        decreases data@.len() - i,
    {
        proof {
            assert(data@.take(i + 1).drop_last() =~= data@.take(i as int));
            lemma_calldata_gas_prefix(data@, i + 1);
        }
        let gas: u64 = if data[i] == 0 {
            4
        } else {
            16
        };
        total = total + gas;
        i = i + 1;
    }
    assert(data@.take(data@.len() as int) =~= data@);
    total
}

/// Estimate the calldata gas of a record's encoding.
pub fn estimate_vcr_gas(vcr: &VCR) -> (r: u64)
    requires
        calldata_gas(vcr_encoding(*vcr)) <= u64::MAX,
    ensures
        r == calldata_gas(vcr_encoding(*vcr)),
{
    let encoded = encode_vcr(vcr);
    estimate_calldata_gas(encoded.as_slice())
}

/// Gas statistics of calldata.
#[derive(Clone, Copy, Debug)]
pub struct GasEstimate {
    /// Total size in bytes
    pub size_bytes: usize,
    /// Number of zero bytes
    pub zero_bytes: usize,
    /// Number of non-zero bytes
    pub nonzero_bytes: usize,
    /// Total gas cost
    pub total_gas: u64,
}

impl GasEstimate {
    /// Byte counts and gas of `data`.
    pub fn from_data(data: &[u8]) -> (r: Self)
        requires
            calldata_gas(data@) <= u64::MAX,
        ensures
            r.size_bytes == data@.len(),
            r.zero_bytes == zero_count(data@),
            r.nonzero_bytes == data@.len() - zero_count(data@),
            r.total_gas == 4 * r.zero_bytes + 16 * r.nonzero_bytes,
            r.total_gas == calldata_gas(data@),
    {
        let mut zero_bytes: usize = 0;
        let mut i: usize = 0;
        while i < data.len()
            invariant
                0 <= i <= data@.len(),
                zero_bytes == zero_count(data@.take(i as int)),
                zero_bytes <= i,
            decreases data@.len() - i,
        {
            proof {
                assert(data@.take(i + 1).drop_last() =~= data@.take(i as int));
            }
            if data[i] == 0 {
                zero_bytes = zero_bytes + 1;
            }
            i = i + 1;
        }
        assert(data@.take(data@.len() as int) =~= data@);
        proof {
            lemma_gas_by_counts(data@);
        }
        let nonzero_bytes = data.len() - zero_bytes;
        let total_gas = (zero_bytes as u64 * 4) + (nonzero_bytes as u64 * 16);
        GasEstimate { size_bytes: data.len(), zero_bytes, nonzero_bytes, total_gas }
    }

    /// Gas statistics of a record's encoding.
    pub fn from_vcr(vcr: &VCR) -> (r: Self)
        requires
            calldata_gas(vcr_encoding(*vcr)) <= u64::MAX,
        ensures
            r.size_bytes == vcr_encoding(*vcr).len(),
            r.zero_bytes == zero_count(vcr_encoding(*vcr)),
            r.nonzero_bytes == vcr_encoding(*vcr).len() - zero_count(vcr_encoding(*vcr)),
            r.total_gas == 4 * r.zero_bytes + 16 * r.nonzero_bytes,
            r.total_gas == calldata_gas(vcr_encoding(*vcr)),
    {
        let encoded = encode_vcr(vcr);
        Self::from_data(encoded.as_slice())
    }
}

proof fn lemma_concat_words_len(ws: Seq<[u8; 32]>)
    ensures
        concat(words(ws)).len() == 32 * ws.len(),
    decreases ws.len(),
{
    if ws.len() > 0 {
        lemma_concat_words_len(ws.drop_last());
        assert(words(ws).drop_last() =~= words(ws.drop_last()));
    }
}

/// Encoded lengths: a URI takes 4 bytes more than its UTF-8 bytes, a context
/// 41 bytes (its `size_bytes`), a bit vector 4 bytes plus one byte per eight
/// bits or part thereof, and a proof exactly its `size_bytes`.
pub proof fn lemma_encoding_lengths(
    uri: Seq<char>,
    c: Context,
    bits: Seq<bool>,
    p: NonMembershipProof,
)
    ensures
        uri_encoding(uri).len() == 4 + encode_utf8(uri).len(),
        context_encoding(c).len() == 41,
        bit_vector_encoding(bits).len() == 4 + (bits.len() + 7) / 8,
        proof_encoding(p).len() == p.size_spec(),
{
    c.pk_receiver.lemma_compressed_len();
    lemma_concat_words_len(p.left_path@);
    lemma_concat_words_len(p.right_lower_path@);
}

/// Calldata gas is at least 4 and at most 16 per byte.
pub proof fn lemma_gas_bounds(data: Seq<u8>)
    ensures
        4 * data.len() <= calldata_gas(data) <= 16 * data.len(),
    decreases data.len(),
{
    if data.len() > 0 {
        lemma_gas_bounds(data.drop_last());
    }
}

/// Calldata gas adds up over concatenation.
pub proof fn lemma_gas_additive(a: Seq<u8>, b: Seq<u8>)
    ensures
        calldata_gas(a + b) == calldata_gas(a) + calldata_gas(b),
    decreases b.len(),
{
    if b.len() == 0 {
        assert(a + b =~= a);
    } else {
        lemma_gas_additive(a, b.drop_last());
        assert((a + b).drop_last() =~= a + b.drop_last());
    }
}

/// The byte size of a proof is its encoded length:
/// `112 + 32 * (left path + right lower path) + ceil(directions / 8)`.
pub proof fn lemma_proof_size_is_encoded_length(p: NonMembershipProof)
    ensures
        proof_encoding(p).len() == p.size_spec(),
        p.size_spec() == 112 + 32 * (p.left_path@.len() + p.right_lower_path@.len()) + (
        p.left_indices@.len() + 7) / 8,
{
    lemma_concat_words_len(p.left_path@);
    lemma_concat_words_len(p.right_lower_path@);
}

proof fn lemma_uris_len(policy: Seq<String>)
    ensures
        concat(Seq::new(policy.len(), |i: int| uri_encoding(policy[i]@))).len() == 4 * policy.len()
            + policy_bytes(policy),
    decreases policy.len(),
{
    if policy.len() > 0 {
        let rest = policy.drop_last();
        lemma_uris_len(rest);
        assert(Seq::new(policy.len(), |i: int| uri_encoding(policy[i]@)).drop_last() =~= Seq::new(
            rest.len(),
            |i: int| uri_encoding(rest[i]@),
        ));
    }
}

proof fn lemma_proofs_len(proofs: Seq<NonMembershipProof>)
    ensures
        concat(Seq::new(proofs.len(), |i: int| proof_encoding(proofs[i]))).len() == proofs_size(
            proofs,
        ),
    decreases proofs.len(),
{
    if proofs.len() > 0 {
        let rest = proofs.drop_last();
        lemma_proofs_len(rest);
        lemma_proof_size_is_encoded_length(proofs.last());
        assert(Seq::new(proofs.len(), |i: int| proof_encoding(proofs[i])).drop_last() =~= Seq::new(
            rest.len(),
            |i: int| proof_encoding(rest[i]),
        ));
    }
}

/// A record's byte size (`VCR::size_bytes`) is the length of its encoding
/// (`calculate_vcr_size`).
pub proof fn lemma_record_size_is_encoded_length(vcr: VCR)
    ensures
        vcr_size(vcr) == vcr_encoding(vcr).len(),
{
    vcr.message.context.pk_receiver.lemma_compressed_len();
    lemma_uris_len(vcr.message.policy@);
    lemma_proofs_len(vcr.message.proofs@);
}

/// The gas of a record's encoding is between 4 and 16 per encoded byte.
pub proof fn lemma_record_gas_bounds(vcr: VCR)
    ensures
        4 * vcr_encoding(vcr).len() <= calldata_gas(vcr_encoding(vcr)) <= 16 * vcr_encoding(
            vcr,
        ).len(),
{
    lemma_gas_bounds(vcr_encoding(vcr));
}

/// Bit `t` of a byte.
pub open spec fn bit_of(byte: u8, t: u8) -> bool {
    (byte >> t) & 1 == 1
}

proof fn lemma_bit_facts(b: u8, k: u8, t: u8)
    requires
        k < 8,
        t < 8,
        b < (1u8 << k),
    ensures
        t < k ==> (bit_of((b | (1u8 << k)) as u8, t) == bit_of(b, t)),
        bit_of((b | (1u8 << k)) as u8, k),
        t >= k ==> !bit_of(b, t),
        t > k ==> !bit_of((b | (1u8 << k)) as u8, t),
{
    assert(t < k && k < 8 && b < (1u8 << k) ==> (((b | (1u8 << k)) >> t) & 1) == ((b >> t) & 1))
        by (bit_vector);
    assert(k < 8 && b < (1u8 << k) ==> (((b | (1u8 << k)) >> k) & 1) == 1) by (bit_vector);
    assert(t >= k && t < 8 && k < 8 && b < (1u8 << k) ==> ((b >> t) & 1) == 0) by (bit_vector);
    assert(t > k && t < 8 && k < 8 && b < (1u8 << k) ==> (((b | (1u8 << k)) >> t) & 1) == 0)
        by (bit_vector);
}

/// Bit `t` of a packed group is the group's `t`-th bit, and the bits past the
/// group's end are clear.
proof fn lemma_pack_byte_bits(c: Seq<bool>)
    requires
        c.len() <= 8,
    ensures
        pack_byte(c) < 256,
        forall|t: u8| t < 8 ==> #[trigger] bit_of(pack_byte(c) as u8, t) == (t < c.len() && c[t as int]),
    decreases c.len(),
{
    lemma2_to64();
    lemma_pack_byte_bound(c);
    if c.len() == 0 {
        assert forall|t: u8| t < 8 implies #[trigger] bit_of(pack_byte(c) as u8, t) == (t < c.len()
            && c[t as int]) by {
            assert(((0u8 >> t) & 1) == 0) by (bit_vector);
        }
    } else {
        let d = c.drop_last();
        let k = (c.len() - 1) as u8;
        lemma_pack_byte_bits(d);
        lemma_pack_byte_bound(d);
        let b = pack_byte(d) as u8;
        lemma_u8_shl_is_mul(1u8, k);
        assert((1u8 << k) == pow2(k as nat));
        assert(b < (1u8 << k));
        if c.last() {
            lemma_set_bit(b, k);
            assert(pack_byte(c) as u8 == (b | (1u8 << k)));
        } else {
            assert(pack_byte(c) as u8 == b);
        }
        assert forall|t: u8| t < 8 implies #[trigger] bit_of(pack_byte(c) as u8, t) == (t < c.len()
            && c[t as int]) by {
            lemma_bit_facts(b, k, t);
            assert(bit_of(b, t) == (t < d.len() && d[t as int]));
            if t < k {
                assert(c[t as int] == d[t as int]);
            }
        }
    }
}

/// Bit extraction from packed bits: bit `i % 8` of byte `i / 8` is `bits[i]`,
/// and every bit past the last one is clear.
pub proof fn lemma_pack_bits_extract(bits: Seq<bool>)
    ensures
        pack_bits(bits).len() == (bits.len() + 7) / 8,
        forall|i: int|
            0 <= i < bits.len() ==> bit_of(#[trigger] pack_bits(bits)[i / 8], (i % 8) as u8)
                == bits[i],
        forall|j: int, t: u8|
            0 <= j < pack_bits(bits).len() && t < 8 && 8 * j + t >= bits.len() ==> !#[trigger] bit_of(
                pack_bits(bits)[j],
                t,
            ),
{
    assert forall|j: int| 0 <= j < pack_bits(bits).len() implies chunk(bits, j).len() <= 8
        && forall|t: u8| t < 8 ==> #[trigger] bit_of(pack_bits(bits)[j], t) == (t < chunk(
        bits,
        j,
    ).len() && chunk(bits, j)[t as int]) by {
        lemma_pack_byte_bits(chunk(bits, j));
    }
    assert forall|i: int| 0 <= i < bits.len() implies bit_of(
        #[trigger] pack_bits(bits)[i / 8],
        (i % 8) as u8,
    ) == bits[i] by {
        let j = i / 8;
        let t = (i % 8) as u8;
        assert(bit_of(pack_bits(bits)[j], t) == (t < chunk(bits, j).len() && chunk(bits, j)[t as int]));
    }
}

} // verus!

//! The canonical bytes of a compliance message: its compact JSON text.
//!
//! `{"policy":[..],"context":{..},"proofs":[..]}` with the fields of each
//! part in declaration order, byte strings as lists of numbers, addresses as
//! `0x`-prefixed lower-case hexadecimal strings, and no whitespace.

use crate::json::{
    address_text, boolean, byte_list, dec, join, key, lemma_join_step, list, quoted, write_address,
    write_bool, write_byte_list, write_dec, write_key, write_quoted,
};
use crate::merkle::NonMembershipProof;
use crate::tree_model::words;
use crate::vcr::{ComplianceMessage, Context};
use vstd::prelude::*;
use vstd::utf8::encode_utf8;

verus! {

/// The policy URIs as a list of JSON strings (each URI's UTF-8 bytes).
pub open spec fn policy_json(policy: Seq<String>) -> Seq<u8> {
    list(Seq::new(policy.len(), |i: int| quoted(encode_utf8(policy[i]@))))
}

/// `{"pk_receiver":[..],"nonce_sender":N}`, the key compressed.
pub open spec fn context_json(c: Context) -> Seq<u8> {
    seq![123u8] + key("pk_receiver"@) + byte_list(c.pk_receiver@) + seq![44u8] + key(
        "nonce_sender"@,
    ) + dec(c.nonce_sender as nat) + seq![125u8]
}

/// A list of 32-byte words, each a list of numbers.
pub open spec fn word_list(ws: Seq<Seq<u8>>) -> Seq<u8> {
    list(Seq::new(ws.len(), |i: int| byte_list(ws[i])))
}

/// A list of booleans.
pub open spec fn bool_list(bs: Seq<bool>) -> Seq<u8> {
    list(Seq::new(bs.len(), |i: int| boolean(bs[i])))
}

/// The first four fields of a proof: the queried address, the root and the
/// two bounding addresses.
pub open spec fn proof_head_json(p: NonMembershipProof) -> Seq<u8> {
    key("addr"@) + address_text(p.addr) + seq![44u8] + key("root"@) + byte_list(p.root@) + seq![
        44u8,
    ] + key("left_addr"@) + address_text(p.left_addr) + seq![44u8] + key("right_addr"@)
        + address_text(p.right_addr)
}

/// The last four fields of a proof: the left path and directions, the right
/// leaf's lower path and the divergence level.
pub open spec fn proof_tail_json(p: NonMembershipProof) -> Seq<u8> {
    key("left_path"@) + word_list(words(p.left_path@)) + seq![44u8] + key("left_indices"@)
        + bool_list(p.left_indices@) + seq![44u8] + key("right_lower_path"@) + word_list(
        words(p.right_lower_path@),
    ) + seq![44u8] + key("divergence_level"@) + dec(p.divergence_level as nat)
}

/// One non-membership proof as a JSON object.
pub open spec fn proof_json(p: NonMembershipProof) -> Seq<u8> {
    seq![123u8] + proof_head_json(p) + seq![44u8] + proof_tail_json(p) + seq![125u8]
}

/// The proofs as a JSON list.
pub open spec fn proofs_json(proofs: Seq<NonMembershipProof>) -> Seq<u8> {
    list(Seq::new(proofs.len(), |i: int| proof_json(proofs[i])))
}

/// The JSON text of a message.
#[verifier::opaque]
pub open spec fn message_json(m: ComplianceMessage) -> Seq<u8> {
    seq![123u8] + key("policy"@) + policy_json(m.policy@) + seq![44u8] + key("context"@)
        + context_json(m.context) + seq![44u8] + key("proofs"@) + proofs_json(m.proofs@) + seq![
        125u8,
    ]
}

fn write_policy(out: &mut Vec<u8>, policy: &[String])
    ensures
        final(out)@ == old(out)@ + policy_json(policy@),
{
    let ghost items = Seq::new(policy@.len(), |i: int| quoted(encode_utf8(policy@[i]@)));
    out.push(91);
    let ghost start = out@;
    let mut i: usize = 0;
    while i < policy.len()
        invariant
            0 <= i <= policy@.len(),
            items == Seq::new(policy@.len(), |i: int| quoted(encode_utf8(policy@[i]@))),
            out@ == start + join(items.take(i as int)),
        decreases policy@.len() - i,
    {
        if i > 0 {
            out.push(44);
        }
        write_quoted(out, policy[i].as_str().as_bytes());
        proof {
            lemma_join_step(items, i as int);
            assert(out@ =~= start + join(items.take(i + 1)));
        }
        i = i + 1;
    }
    out.push(93);
    proof {
        assert(items.take(policy@.len() as int) =~= items);
        assert(final(out)@ =~= old(out)@ + policy_json(policy@));
    }
}

fn write_context(out: &mut Vec<u8>, c: &Context)
    ensures
        final(out)@ == old(out)@ + context_json(*c),
{
    out.push(123);
    write_key(out, "pk_receiver");
    let pk = c.pk_receiver.to_compressed();
    write_byte_list(out, pk.as_slice());
    out.push(44);
    write_key(out, "nonce_sender");
    write_dec(out, c.nonce_sender);
    out.push(125);
    assert(final(out)@ =~= old(out)@ + context_json(*c));
}

fn write_word_list(out: &mut Vec<u8>, ws: &[[u8; 32]])
    ensures
        final(out)@ == old(out)@ + word_list(words(ws@)),
{
    let ghost items = Seq::new(ws@.len(), |i: int| byte_list(words(ws@)[i]));
    out.push(91);
    let ghost start = out@;
    let mut i: usize = 0;
    while i < ws.len()
        invariant
            0 <= i <= ws@.len(),
            items == Seq::new(ws@.len(), |i: int| byte_list(words(ws@)[i])),
            out@ == start + join(items.take(i as int)),
        decreases ws@.len() - i,
    {
        if i > 0 {
            out.push(44);
        }
        write_byte_list(out, ws[i].as_slice());
        proof {
            lemma_join_step(items, i as int);
            assert(out@ =~= start + join(items.take(i + 1)));
        }
        i = i + 1;
    }
    out.push(93);
    proof {
        assert(items.take(ws@.len() as int) =~= items);
        assert(final(out)@ =~= old(out)@ + word_list(words(ws@)));
    }
}

fn write_bool_list(out: &mut Vec<u8>, bs: &[bool])
    ensures
        final(out)@ == old(out)@ + bool_list(bs@),
{
    let ghost items = Seq::new(bs@.len(), |i: int| boolean(bs@[i]));
    out.push(91);
    let ghost start = out@;
    let mut i: usize = 0;
    while i < bs.len()
        invariant
            0 <= i <= bs@.len(),
            items == Seq::new(bs@.len(), |i: int| boolean(bs@[i])),
            out@ == start + join(items.take(i as int)),
        decreases bs@.len() - i,
    {
        if i > 0 {
            out.push(44);
        }
        write_bool(out, bs[i]);
        proof {
            lemma_join_step(items, i as int);
            assert(out@ =~= start + join(items.take(i + 1)));
        }
        i = i + 1;
    }
    out.push(93);
    proof {
        assert(items.take(bs@.len() as int) =~= items);
        assert(final(out)@ =~= old(out)@ + bool_list(bs@));
    }
}

fn write_proof_head(out: &mut Vec<u8>, p: &NonMembershipProof)
    ensures
        final(out)@ == old(out)@ + proof_head_json(*p),
{
    write_key(out, "addr");
    write_address(out, &p.addr);
    out.push(44);
    write_key(out, "root");
    write_byte_list(out, p.root.as_slice());
    out.push(44);
    write_key(out, "left_addr");
    write_address(out, &p.left_addr);
    out.push(44);
    write_key(out, "right_addr");
    write_address(out, &p.right_addr);
    assert(final(out)@ =~= old(out)@ + proof_head_json(*p));
}

fn write_proof_tail(out: &mut Vec<u8>, p: &NonMembershipProof)
    ensures
        final(out)@ == old(out)@ + proof_tail_json(*p),
{
    write_key(out, "left_path");
    write_word_list(out, p.left_path.as_slice());
    out.push(44);
    write_key(out, "left_indices");
    write_bool_list(out, p.left_indices.as_slice());
    out.push(44);
    write_key(out, "right_lower_path");
    write_word_list(out, p.right_lower_path.as_slice());
    out.push(44);
    write_key(out, "divergence_level");
    write_dec(out, p.divergence_level as u64);
    assert(final(out)@ =~= old(out)@ + proof_tail_json(*p));
}

fn write_proof(out: &mut Vec<u8>, p: &NonMembershipProof)
    ensures
        final(out)@ == old(out)@ + proof_json(*p),
{
    out.push(123);
    write_proof_head(out, p);
    out.push(44);
    write_proof_tail(out, p);
    out.push(125);
    assert(final(out)@ =~= old(out)@ + proof_json(*p));
}

fn write_proofs(out: &mut Vec<u8>, proofs: &[NonMembershipProof])
    ensures
        final(out)@ == old(out)@ + proofs_json(proofs@),
{
    let ghost items = Seq::new(proofs@.len(), |i: int| proof_json(proofs@[i]));
    out.push(91);
    let ghost start = out@;
    let mut i: usize = 0;
    while i < proofs.len()
        invariant
            0 <= i <= proofs@.len(),
            items == Seq::new(proofs@.len(), |i: int| proof_json(proofs@[i])),
            out@ == start + join(items.take(i as int)),
        decreases proofs@.len() - i,
    {
        if i > 0 {
            out.push(44);
        }
        write_proof(out, &proofs[i]);
        proof {
            lemma_join_step(items, i as int);
            assert(out@ =~= start + join(items.take(i + 1)));
        }
        i = i + 1;
    }
    out.push(93);
    proof {
        assert(items.take(proofs@.len() as int) =~= items);
        assert(final(out)@ =~= old(out)@ + proofs_json(proofs@));
    }
}

/// The JSON text of `m`, the bytes that are hashed and signed.
pub fn message_bytes(m: &ComplianceMessage) -> (r: Vec<u8>)
    ensures
        r@ == message_json(*m),
{
    let mut out: Vec<u8> = Vec::new();
    out.push(123);
    write_key(&mut out, "policy");
    write_policy(&mut out, m.policy.as_slice());
    out.push(44);
    write_key(&mut out, "context");
    write_context(&mut out, &m.context);
    out.push(44);
    write_key(&mut out, "proofs");
    write_proofs(&mut out, m.proofs.as_slice());
    out.push(125);
    reveal(message_json);
    assert(out@ =~= message_json(*m));
    out
}

} // verus!

//! The signed bytes determine the message: the JSON text of a compliance
//! message is read back uniquely, so two messages with the same text have
//! the same policy URIs (all of them, in order), the same context and the
//! same proofs.

use crate::address::Address;
use crate::json::{address_text, boolean, byte_list, dec, key, list, quoted};
use crate::json_unique::{
    boolean_class, byte_list_class, lemma_address_parse, lemma_boolean_class, lemma_boolean_parse,
    lemma_byte_list_class, lemma_byte_list_parse, lemma_cancel_prefix, lemma_dec_parse,
    lemma_field_rest, lemma_join_push, lemma_list_parse, lemma_object_parse, lemma_quoted_class,
    lemma_quoted_parse, object, quoted_class, self_delimiting, delimited,
};
use crate::merkle::NonMembershipProof;
use crate::message::{
    bool_list, context_json, message_json, policy_json, proof_head_json, proof_json,
    proof_tail_json, proofs_json, word_list,
};
use crate::tree_model::words;
use crate::vcr::{ComplianceMessage, Context};
use vstd::prelude::*;
use vstd::utf8::{encode_utf8, encode_utf8_decode_utf8};

verus! {

/// Every object key starts with a quote.
proof fn lemma_key_first(name: Seq<char>)
    ensures
        key(name).len() > 0,
        key(name)[0] == 34,
{
    assert(quoted(encode_utf8(name))[0] == 34);
}

/// Lists of 32-byte words are read back uniquely.
proof fn lemma_word_list_parse(
    ws1: Seq<Seq<u8>>,
    r1: Seq<u8>,
    ws2: Seq<Seq<u8>>,
    r2: Seq<u8>,
)
    requires
        word_list(ws1) + r1 == word_list(ws2) + r2,
    ensures
        ws1 == ws2,
        r1 == r2,
{
    let i1 = Seq::new(ws1.len(), |i: int| byte_list(ws1[i]));
    let i2 = Seq::new(ws2.len(), |i: int| byte_list(ws2[i]));
    lemma_byte_list_class(93u8);
    let ok = byte_list_class();
    assert forall|i: int| 0 <= i < i1.len() implies ok(i, #[trigger] i1[i]) by {
        assert(i1[i] == byte_list(ws1[i]));
    }
    assert forall|i: int| 0 <= i < i2.len() implies ok(i, #[trigger] i2[i]) by {
        assert(i2[i] == byte_list(ws2[i]));
    }
    lemma_list_parse(ok, i1, i2, r1, r2);
    assert forall|i: int| 0 <= i < ws1.len() implies ws1[i] == ws2[i] by {
        assert(i1[i] == i2[i]);
        assert(byte_list(ws1[i]) + Seq::<u8>::empty() =~= byte_list(ws1[i]));
        assert(byte_list(ws2[i]) + Seq::<u8>::empty() =~= byte_list(ws2[i]));
        lemma_byte_list_parse(ws1[i], Seq::<u8>::empty(), ws2[i], Seq::<u8>::empty());
    }
    assert(ws1 =~= ws2);
}

/// Lists of booleans are read back uniquely.
proof fn lemma_bool_list_parse(b1: Seq<bool>, r1: Seq<u8>, b2: Seq<bool>, r2: Seq<u8>)
    requires
        bool_list(b1) + r1 == bool_list(b2) + r2,
    ensures
        b1 == b2,
        r1 == r2,
{
    let i1 = Seq::new(b1.len(), |i: int| boolean(b1[i]));
    let i2 = Seq::new(b2.len(), |i: int| boolean(b2[i]));
    lemma_boolean_class(93u8);
    let ok = boolean_class();
    assert forall|i: int| 0 <= i < i1.len() implies ok(i, #[trigger] i1[i]) by {
        assert(i1[i] == boolean(b1[i]));
    }
    assert forall|i: int| 0 <= i < i2.len() implies ok(i, #[trigger] i2[i]) by {
        assert(i2[i] == boolean(b2[i]));
    }
    lemma_list_parse(ok, i1, i2, r1, r2);
    assert forall|i: int| 0 <= i < b1.len() implies b1[i] == b2[i] by {
        assert(i1[i] == i2[i]);
        assert(boolean(b1[i]) + Seq::<u8>::empty() =~= boolean(b1[i]));
        assert(boolean(b2[i]) + Seq::<u8>::empty() =~= boolean(b2[i]));
        lemma_boolean_parse(b1[i], Seq::<u8>::empty(), b2[i], Seq::<u8>::empty());
    }
    assert(b1 =~= b2);
}

/// The policy's list of URIs is read back uniquely: every URI, in order.
proof fn lemma_policy_parse(p1: Seq<String>, r1: Seq<u8>, p2: Seq<String>, r2: Seq<u8>)
    requires
        policy_json(p1) + r1 == policy_json(p2) + r2,
    ensures
        p1.len() == p2.len(),
        forall|i: int| 0 <= i < p1.len() ==> (#[trigger] p1[i])@ == p2[i]@,
        r1 == r2,
{
    let i1 = Seq::new(p1.len(), |i: int| quoted(encode_utf8(p1[i]@)));
    let i2 = Seq::new(p2.len(), |i: int| quoted(encode_utf8(p2[i]@)));
    lemma_quoted_class(93u8);
    let ok = quoted_class();
    assert forall|i: int| 0 <= i < i1.len() implies ok(i, #[trigger] i1[i]) by {
        assert(i1[i] == quoted(encode_utf8(p1[i]@)));
    }
    assert forall|i: int| 0 <= i < i2.len() implies ok(i, #[trigger] i2[i]) by {
        assert(i2[i] == quoted(encode_utf8(p2[i]@)));
    }
    lemma_list_parse(ok, i1, i2, r1, r2);
    assert forall|i: int| 0 <= i < p1.len() implies (#[trigger] p1[i])@ == p2[i]@ by {
        assert(i1[i] == i2[i]);
        let e1 = encode_utf8(p1[i]@);
        let e2 = encode_utf8(p2[i]@);
        assert(quoted(e1) + Seq::<u8>::empty() =~= quoted(e1));
        assert(quoted(e2) + Seq::<u8>::empty() =~= quoted(e2));
        lemma_quoted_parse(e1, Seq::<u8>::empty(), e2, Seq::<u8>::empty());
        encode_utf8_decode_utf8(p1[i]@);
        encode_utf8_decode_utf8(p2[i]@);
    }
}

/// The fields of a proof object.
pub open spec fn proof_fields(p: NonMembershipProof) -> Seq<Seq<u8>> {
    seq![key("addr"@) + address_text(p.addr)].push(key("root"@) + byte_list(p.root@)).push(
        key("left_addr"@) + address_text(p.left_addr),
    ).push(key("right_addr"@) + address_text(p.right_addr)).push(
        key("left_path"@) + word_list(words(p.left_path@)),
    ).push(key("left_indices"@) + bool_list(p.left_indices@)).push(
        key("right_lower_path"@) + word_list(words(p.right_lower_path@)),
    ).push(key("divergence_level"@) + dec(p.divergence_level as nat))
}

proof fn lemma_proof_as_object(p: NonMembershipProof)
    ensures
        proof_json(p) == object(proof_fields(p)),
{
    let f = proof_fields(p);
    let f1 = seq![f[0]];
    let f2 = f1.push(f[1]);
    let f3 = f2.push(f[2]);
    let f4 = f3.push(f[3]);
    let f5 = f4.push(f[4]);
    let f6 = f5.push(f[5]);
    let f7 = f6.push(f[6]);
    assert(f =~= f7.push(f[7]));
    assert(f1.drop_last() =~= Seq::<Seq<u8>>::empty());
    assert(crate::json::join(f1) == f[0]);
    lemma_join_push(f1, f[1]);
    lemma_join_push(f2, f[2]);
    lemma_join_push(f3, f[3]);
    lemma_join_push(f4, f[4]);
    lemma_join_push(f5, f[5]);
    lemma_join_push(f6, f[6]);
    lemma_join_push(f7, f[7]);
    assert(proof_head_json(p) =~= f[0] + (seq![44u8] + f[1]) + (seq![44u8] + f[2]) + (seq![44u8]
        + f[3]));
    assert(proof_tail_json(p) =~= f[4] + (seq![44u8] + f[5]) + (seq![44u8] + f[6]) + (seq![44u8]
        + f[7]));
    assert(proof_json(p) =~= object(f));
}

/// The class of the `i`-th field of a proof object.
pub open spec fn proof_field_class() -> spec_fn(int, Seq<u8>) -> bool {
    |i: int, a: Seq<u8>|
        if i == 0 {
            exists|x: Address| a == key("addr"@) + #[trigger] address_text(x)
        } else if i == 1 {
            exists|s: Seq<u8>| a == key("root"@) + #[trigger] byte_list(s)
        } else if i == 2 {
            exists|x: Address| a == key("left_addr"@) + #[trigger] address_text(x)
        } else if i == 3 {
            exists|x: Address| a == key("right_addr"@) + #[trigger] address_text(x)
        } else if i == 4 {
            exists|ws: Seq<Seq<u8>>| a == key("left_path"@) + #[trigger] word_list(ws)
        } else if i == 5 {
            exists|bs: Seq<bool>| a == key("left_indices"@) + #[trigger] bool_list(bs)
        } else if i == 6 {
            exists|ws: Seq<Seq<u8>>| a == key("right_lower_path"@) + #[trigger] word_list(ws)
        } else if i == 7 {
            exists|n: nat| a == key("divergence_level"@) + #[trigger] dec(n)
        } else {
            false
        }
}

proof fn lemma_proof_field_class()
    ensures
        self_delimiting(proof_field_class(), 125u8),
{
    let ok = proof_field_class();
    assert forall|i: int, a: Seq<u8>, b: Seq<u8>, r1: Seq<u8>, r2: Seq<u8>|
        #![trigger ok(i, a), ok(i, b), a + r1, b + r2]
        ok(i, a) && ok(i, b) && a + r1 == b + r2 && delimited(r1, 125u8) && delimited(r2, 125u8)
            implies a == b by {
        if i == 0 || i == 2 || i == 3 {
            let k = if i == 0 {
                key("addr"@)
            } else if i == 2 {
                key("left_addr"@)
            } else {
                key("right_addr"@)
            };
            let x1 = choose|x: Address| a == k + #[trigger] address_text(x);
            let x2 = choose|x: Address| b == k + #[trigger] address_text(x);
            lemma_field_rest(k, address_text(x1), r1, address_text(x2), r2);
            lemma_address_parse(x1, r1, x2, r2);
        } else if i == 1 {
            let k = key("root"@);
            let s1 = choose|s: Seq<u8>| a == k + #[trigger] byte_list(s);
            let s2 = choose|s: Seq<u8>| b == k + #[trigger] byte_list(s);
            lemma_field_rest(k, byte_list(s1), r1, byte_list(s2), r2);
            lemma_byte_list_parse(s1, r1, s2, r2);
        } else if i == 4 || i == 6 {
            let k = if i == 4 {
                key("left_path"@)
            } else {
                key("right_lower_path"@)
            };
            let w1 = choose|ws: Seq<Seq<u8>>| a == k + #[trigger] word_list(ws);
            let w2 = choose|ws: Seq<Seq<u8>>| b == k + #[trigger] word_list(ws);
            lemma_field_rest(k, word_list(w1), r1, word_list(w2), r2);
            lemma_word_list_parse(w1, r1, w2, r2);
        } else if i == 5 {
            let k = key("left_indices"@);
            let c1 = choose|bs: Seq<bool>| a == k + #[trigger] bool_list(bs);
            let c2 = choose|bs: Seq<bool>| b == k + #[trigger] bool_list(bs);
            lemma_field_rest(k, bool_list(c1), r1, bool_list(c2), r2);
            lemma_bool_list_parse(c1, r1, c2, r2);
        } else {
            let k = key("divergence_level"@);
            let n1 = choose|n: nat| a == k + #[trigger] dec(n);
            let n2 = choose|n: nat| b == k + #[trigger] dec(n);
            lemma_field_rest(k, dec(n1), r1, dec(n2), r2);
            lemma_dec_parse(n1, r1, n2, r2);
        }
    }
    assert forall|i: int, a: Seq<u8>| #[trigger] ok(i, a) implies a.len() > 0 && a[0] != 125u8 by {
        let names = seq!["addr"@, "root"@, "left_addr"@, "right_addr"@, "left_path"@, "left_indices"@, "right_lower_path"@, "divergence_level"@];
        let k = key(names[i]);
        lemma_key_first(names[i]);
        let v = a.skip(k.len() as int);
        assert(a =~= k + v);
        assert(a[0] == k[0]);
    }
}

/// Two proofs with the same fields.
pub open spec fn same_proof(p: NonMembershipProof, q: NonMembershipProof) -> bool {
    &&& p.addr == q.addr
    &&& p.root@ == q.root@
    &&& p.left_addr == q.left_addr
    &&& p.right_addr == q.right_addr
    &&& words(p.left_path@) == words(q.left_path@)
    &&& p.left_indices@ == q.left_indices@
    &&& words(p.right_lower_path@) == words(q.right_lower_path@)
    &&& p.divergence_level == q.divergence_level
}

/// Field `i` of a proof object determines field `i` of the proof.
proof fn lemma_proof_fields_injective(p1: NonMembershipProof, p2: NonMembershipProof)
    requires
        proof_fields(p1) == proof_fields(p2),
    ensures
        same_proof(p1, p2),
{
    let f1 = proof_fields(p1);
    let f2 = proof_fields(p2);
    let e = Seq::<u8>::empty();
    assert(f1[0] == f2[0]);
    lemma_field_rest(key("addr"@), address_text(p1.addr), e, address_text(p2.addr), e);
    lemma_address_parse(p1.addr, e, p2.addr, e);
    assert(f1[1] == f2[1]);
    lemma_field_rest(key("root"@), byte_list(p1.root@), e, byte_list(p2.root@), e);
    lemma_byte_list_parse(p1.root@, e, p2.root@, e);
    assert(f1[2] == f2[2]);
    lemma_field_rest(key("left_addr"@), address_text(p1.left_addr), e, address_text(p2.left_addr), e);
    lemma_address_parse(p1.left_addr, e, p2.left_addr, e);
    assert(f1[3] == f2[3]);
    lemma_field_rest(key("right_addr"@), address_text(p1.right_addr), e, address_text(p2.right_addr), e);
    lemma_address_parse(p1.right_addr, e, p2.right_addr, e);
    assert(f1[4] == f2[4]);
    lemma_field_rest(key("left_path"@), word_list(words(p1.left_path@)), e, word_list(words(p2.left_path@)), e);
    lemma_word_list_parse(words(p1.left_path@), e, words(p2.left_path@), e);
    assert(f1[5] == f2[5]);
    lemma_field_rest(key("left_indices"@), bool_list(p1.left_indices@), e, bool_list(p2.left_indices@), e);
    lemma_bool_list_parse(p1.left_indices@, e, p2.left_indices@, e);
    assert(f1[6] == f2[6]);
    lemma_field_rest(key("right_lower_path"@), word_list(words(p1.right_lower_path@)), e, word_list(words(p2.right_lower_path@)), e);
    lemma_word_list_parse(words(p1.right_lower_path@), e, words(p2.right_lower_path@), e);
    assert(f1[7] == f2[7]);
    let n1 = p1.divergence_level as nat;
    let n2 = p2.divergence_level as nat;
    lemma_field_rest(key("divergence_level"@), dec(n1), e, dec(n2), e);
    assert(dec(n1) + e =~= dec(n1));
    assert(dec(n2) + e =~= dec(n2));
    crate::json_unique::lemma_dec_digits(n1);
    crate::json_unique::lemma_dec_digits(n2);
}

/// A proof object followed by more text is read back uniquely.
proof fn lemma_proof_parse(p1: NonMembershipProof, r1: Seq<u8>, p2: NonMembershipProof, r2: Seq<u8>)
    requires
        proof_json(p1) + r1 == proof_json(p2) + r2,
    ensures
        same_proof(p1, p2),
        r1 == r2,
{
    lemma_proof_as_object(p1);
    lemma_proof_as_object(p2);
    lemma_proof_field_class();
    let ok = proof_field_class();
    let f1 = proof_fields(p1);
    let f2 = proof_fields(p2);
    assert forall|i: int| 0 <= i < f1.len() implies ok(i, #[trigger] f1[i]) by {
        if i == 0 { assert(f1[0] == key("addr"@) + address_text(p1.addr)); }
        else if i == 1 { assert(f1[1] == key("root"@) + byte_list(p1.root@)); }
        else if i == 2 { assert(f1[2] == key("left_addr"@) + address_text(p1.left_addr)); }
        else if i == 3 { assert(f1[3] == key("right_addr"@) + address_text(p1.right_addr)); }
        else if i == 4 { assert(f1[4] == key("left_path"@) + word_list(words(p1.left_path@))); }
        else if i == 5 { assert(f1[5] == key("left_indices"@) + bool_list(p1.left_indices@)); }
        else if i == 6 { assert(f1[6] == key("right_lower_path"@) + word_list(words(p1.right_lower_path@))); }
        else { assert(f1[7] == key("divergence_level"@) + dec(p1.divergence_level as nat)); }
    }
    assert forall|i: int| 0 <= i < f2.len() implies ok(i, #[trigger] f2[i]) by {
        if i == 0 { assert(f2[0] == key("addr"@) + address_text(p2.addr)); }
        else if i == 1 { assert(f2[1] == key("root"@) + byte_list(p2.root@)); }
        else if i == 2 { assert(f2[2] == key("left_addr"@) + address_text(p2.left_addr)); }
        else if i == 3 { assert(f2[3] == key("right_addr"@) + address_text(p2.right_addr)); }
        else if i == 4 { assert(f2[4] == key("left_path"@) + word_list(words(p2.left_path@))); }
        else if i == 5 { assert(f2[5] == key("left_indices"@) + bool_list(p2.left_indices@)); }
        else if i == 6 { assert(f2[6] == key("right_lower_path"@) + word_list(words(p2.right_lower_path@))); }
        else { assert(f2[7] == key("divergence_level"@) + dec(p2.divergence_level as nat)); }
    }
    lemma_object_parse(ok, f1, f2, r1, r2);
    lemma_proof_fields_injective(p1, p2);
}

/// Proof objects.
pub open spec fn proof_class() -> spec_fn(int, Seq<u8>) -> bool {
    |i: int, a: Seq<u8>| exists|p: NonMembershipProof| a == #[trigger] proof_json(p)
}

proof fn lemma_proof_class()
    ensures
        self_delimiting(proof_class(), 93u8),
{
    let ok = proof_class();
    assert forall|i: int, a: Seq<u8>, b: Seq<u8>, r1: Seq<u8>, r2: Seq<u8>|
        #![trigger ok(i, a), ok(i, b), a + r1, b + r2]
        ok(i, a) && ok(i, b) && a + r1 == b + r2 && delimited(r1, 93u8) && delimited(r2, 93u8)
            implies a == b by {
        let p1 = choose|p: NonMembershipProof| a == #[trigger] proof_json(p);
        let p2 = choose|p: NonMembershipProof| b == #[trigger] proof_json(p);
        lemma_proof_parse(p1, r1, p2, r2);
    }
    assert forall|i: int, a: Seq<u8>| #[trigger] ok(i, a) implies a.len() > 0 && a[0] != 93u8 by {
        let p1 = choose|p: NonMembershipProof| a == #[trigger] proof_json(p);
        assert(proof_json(p1)[0] == 123);
    }
}

/// The list of proofs is read back uniquely.
proof fn lemma_proofs_parse(
    q1: Seq<NonMembershipProof>,
    r1: Seq<u8>,
    q2: Seq<NonMembershipProof>,
    r2: Seq<u8>,
)
    requires
        proofs_json(q1) + r1 == proofs_json(q2) + r2,
    ensures
        q1.len() == q2.len(),
        forall|k: int| 0 <= k < q1.len() ==> same_proof(#[trigger] q1[k], q2[k]),
        r1 == r2,
{
    let i1 = Seq::new(q1.len(), |i: int| proof_json(q1[i]));
    let i2 = Seq::new(q2.len(), |i: int| proof_json(q2[i]));
    lemma_proof_class();
    let ok = proof_class();
    assert forall|i: int| 0 <= i < i1.len() implies ok(i, #[trigger] i1[i]) by {
        assert(i1[i] == proof_json(q1[i]));
    }
    assert forall|i: int| 0 <= i < i2.len() implies ok(i, #[trigger] i2[i]) by {
        assert(i2[i] == proof_json(q2[i]));
    }
    lemma_list_parse(ok, i1, i2, r1, r2);
    assert forall|k: int| 0 <= k < q1.len() implies same_proof(#[trigger] q1[k], q2[k]) by {
        assert(i1[k] == i2[k]);
        let e = Seq::<u8>::empty();
        assert(proof_json(q1[k]) + e =~= proof_json(q1[k]));
        assert(proof_json(q2[k]) + e =~= proof_json(q2[k]));
        lemma_proof_parse(q1[k], e, q2[k], e);
    }
}

/// The class of the `i`-th field of a context object.
pub open spec fn context_field_class() -> spec_fn(int, Seq<u8>) -> bool {
    |i: int, a: Seq<u8>|
        if i == 0 {
            exists|s: Seq<u8>| a == key("pk_receiver"@) + #[trigger] byte_list(s)
        } else if i == 1 {
            exists|n: nat| a == key("nonce_sender"@) + #[trigger] dec(n)
        } else {
            false
        }
}

/// A context object followed by more text is read back uniquely.
proof fn lemma_context_parse(c1: Context, r1: Seq<u8>, c2: Context, r2: Seq<u8>)
    requires
        context_json(c1) + r1 == context_json(c2) + r2,
    ensures
        c1.pk_receiver@ == c2.pk_receiver@,
        c1.nonce_sender == c2.nonce_sender,
        r1 == r2,
{
    let ok = context_field_class();
    assert forall|i: int, a: Seq<u8>, b: Seq<u8>, x1: Seq<u8>, x2: Seq<u8>|
        #![trigger ok(i, a), ok(i, b), a + x1, b + x2]
        ok(i, a) && ok(i, b) && a + x1 == b + x2 && delimited(x1, 125u8) && delimited(x2, 125u8)
            implies a == b by {
        if i == 0 {
            let k = key("pk_receiver"@);
            let s1 = choose|s: Seq<u8>| a == k + #[trigger] byte_list(s);
            let s2 = choose|s: Seq<u8>| b == k + #[trigger] byte_list(s);
            lemma_field_rest(k, byte_list(s1), x1, byte_list(s2), x2);
            lemma_byte_list_parse(s1, x1, s2, x2);
        } else {
            let k = key("nonce_sender"@);
            let n1 = choose|n: nat| a == k + #[trigger] dec(n);
            let n2 = choose|n: nat| b == k + #[trigger] dec(n);
            lemma_field_rest(k, dec(n1), x1, dec(n2), x2);
            lemma_dec_parse(n1, x1, n2, x2);
        }
    }
    assert forall|i: int, a: Seq<u8>| #[trigger] ok(i, a) implies a.len() > 0 && a[0] != 125u8 by {
        let names = seq!["pk_receiver"@, "nonce_sender"@];
        let k = key(names[i]);
        lemma_key_first(names[i]);
        let v = a.skip(k.len() as int);
        assert(a =~= k + v);
        assert(a[0] == k[0]);
    }
    let f1 = seq![key("pk_receiver"@) + byte_list(c1.pk_receiver@)].push(
        key("nonce_sender"@) + dec(c1.nonce_sender as nat),
    );
    let f2 = seq![key("pk_receiver"@) + byte_list(c2.pk_receiver@)].push(
        key("nonce_sender"@) + dec(c2.nonce_sender as nat),
    );
    assert(seq![f1[0]].drop_last() =~= Seq::<Seq<u8>>::empty());
    assert(seq![f2[0]].drop_last() =~= Seq::<Seq<u8>>::empty());
    assert(crate::json::join(seq![f1[0]]) == f1[0]);
    assert(crate::json::join(seq![f2[0]]) == f2[0]);
    assert(f1 =~= seq![f1[0]].push(f1[1]));
    assert(f2 =~= seq![f2[0]].push(f2[1]));
    lemma_join_push(seq![f1[0]], f1[1]);
    lemma_join_push(seq![f2[0]], f2[1]);
    assert(context_json(c1) =~= object(f1));
    assert(context_json(c2) =~= object(f2));
    assert forall|i: int| 0 <= i < f1.len() implies ok(i, #[trigger] f1[i]) by {
        if i == 0 {
            assert(f1[0] == key("pk_receiver"@) + byte_list(c1.pk_receiver@));
        } else {
            assert(f1[1] == key("nonce_sender"@) + dec(c1.nonce_sender as nat));
        }
    }
    assert forall|i: int| 0 <= i < f2.len() implies ok(i, #[trigger] f2[i]) by {
        if i == 0 {
            assert(f2[0] == key("pk_receiver"@) + byte_list(c2.pk_receiver@));
        } else {
            assert(f2[1] == key("nonce_sender"@) + dec(c2.nonce_sender as nat));
        }
    }
    lemma_object_parse(ok, f1, f2, r1, r2);
    let e = Seq::<u8>::empty();
    assert(f1[0] == f2[0]);
    lemma_field_rest(key("pk_receiver"@), byte_list(c1.pk_receiver@), e, byte_list(c2.pk_receiver@), e);
    lemma_byte_list_parse(c1.pk_receiver@, e, c2.pk_receiver@, e);
    assert(f1[1] == f2[1]);
    lemma_field_rest(key("nonce_sender"@), dec(c1.nonce_sender as nat), e, dec(c2.nonce_sender as nat), e);
    crate::json_unique::lemma_dec_digits(c1.nonce_sender as nat);
    crate::json_unique::lemma_dec_digits(c2.nonce_sender as nat);
    assert(dec(c1.nonce_sender as nat) + e =~= dec(c1.nonce_sender as nat));
    assert(dec(c2.nonce_sender as nat) + e =~= dec(c2.nonce_sender as nat));
}

/// The class of the `i`-th field of a message object.
pub open spec fn message_field_class() -> spec_fn(int, Seq<u8>) -> bool {
    |i: int, a: Seq<u8>|
        if i == 0 {
            exists|p: Seq<String>| a == key("policy"@) + #[trigger] policy_json(p)
        } else if i == 1 {
            exists|c: Context| a == key("context"@) + #[trigger] context_json(c)
        } else if i == 2 {
            exists|q: Seq<NonMembershipProof>| a == key("proofs"@) + #[trigger] proofs_json(q)
        } else {
            false
        }
}

proof fn lemma_message_field_class()
    ensures
        self_delimiting(message_field_class(), 125u8),
{
    let ok = message_field_class();
    assert forall|i: int, a: Seq<u8>, b: Seq<u8>, x1: Seq<u8>, x2: Seq<u8>|
        #![trigger ok(i, a), ok(i, b), a + x1, b + x2]
        ok(i, a) && ok(i, b) && a + x1 == b + x2 && delimited(x1, 125u8) && delimited(x2, 125u8)
            implies a == b by {
        if i == 0 {
            let k = key("policy"@);
            let p1 = choose|p: Seq<String>| a == k + #[trigger] policy_json(p);
            let p2 = choose|p: Seq<String>| b == k + #[trigger] policy_json(p);
            lemma_field_rest(k, policy_json(p1), x1, policy_json(p2), x2);
            lemma_policy_parse(p1, x1, p2, x2);
            assert(Seq::new(p1.len(), |j: int| quoted(encode_utf8(p1[j]@))) =~= Seq::new(
                p2.len(),
                |j: int| quoted(encode_utf8(p2[j]@)),
            ));
        } else if i == 1 {
            let k = key("context"@);
            let c1 = choose|c: Context| a == k + #[trigger] context_json(c);
            let c2 = choose|c: Context| b == k + #[trigger] context_json(c);
            lemma_field_rest(k, context_json(c1), x1, context_json(c2), x2);
            lemma_context_parse(c1, x1, c2, x2);
        } else {
            let k = key("proofs"@);
            let q1 = choose|q: Seq<NonMembershipProof>| a == k + #[trigger] proofs_json(q);
            let q2 = choose|q: Seq<NonMembershipProof>| b == k + #[trigger] proofs_json(q);
            lemma_field_rest(k, proofs_json(q1), x1, proofs_json(q2), x2);
            lemma_proofs_parse(q1, x1, q2, x2);
            assert forall|j: int| 0 <= j < q1.len() implies proof_json(q1[j]) == proof_json(q2[j]) by {
                assert(same_proof(q1[j], q2[j]));
            }
            assert(Seq::new(q1.len(), |j: int| proof_json(q1[j])) =~= Seq::new(
                q2.len(),
                |j: int| proof_json(q2[j]),
            ));
        }
    }
    assert forall|i: int, a: Seq<u8>| #[trigger] ok(i, a) implies a.len() > 0 && a[0] != 125u8 by {
        let names = seq!["policy"@, "context"@, "proofs"@];
        let k = key(names[i]);
        lemma_key_first(names[i]);
        let v = a.skip(k.len() as int);
        assert(a =~= k + v);
        assert(a[0] == k[0]);
    }
}

/// The fields of a message object.
pub open spec fn message_fields(m: ComplianceMessage) -> Seq<Seq<u8>> {
    seq![key("policy"@) + policy_json(m.policy@)].push(key("context"@) + context_json(m.context)).push(
        key("proofs"@) + proofs_json(m.proofs@),
    )
}

proof fn lemma_message_as_object(m: ComplianceMessage)
    ensures
        message_json(m) == object(message_fields(m)),
        forall|i: int|
            0 <= i < message_fields(m).len() ==> message_field_class()(
                i,
                #[trigger] message_fields(m)[i],
            ),
{
    let fa = message_fields(m);
    reveal(message_json);
    assert(crate::json::join(seq![fa[0]]) == fa[0]) by {
        assert(seq![fa[0]].drop_last() =~= Seq::<Seq<u8>>::empty());
    }
    assert(fa =~= seq![fa[0]].push(fa[1]).push(fa[2]));
    lemma_join_push(seq![fa[0]], fa[1]);
    lemma_join_push(seq![fa[0]].push(fa[1]), fa[2]);
    assert(message_json(m) =~= object(fa));
    let ok = message_field_class();
    assert forall|i: int| 0 <= i < fa.len() implies ok(i, #[trigger] fa[i]) by {
        if i == 0 {
            assert(fa[0] == key("policy"@) + policy_json(m.policy@));
        } else if i == 1 {
            assert(fa[1] == key("context"@) + context_json(m.context));
        } else {
            assert(fa[2] == key("proofs"@) + proofs_json(m.proofs@));
        }
    }
}

/// The signed bytes determine the message: two compliance messages with the
/// same JSON text have the same policy URIs (every one, in order), the same
/// receiver key and nonce, and the same proofs, field by field.
pub proof fn lemma_message_bytes_injective(m1: ComplianceMessage, m2: ComplianceMessage)
    requires
        message_json(m1) == message_json(m2),
    ensures
        m1.policy@.len() == m2.policy@.len(),
        forall|i: int| 0 <= i < m1.policy@.len() ==> (#[trigger] m1.policy@[i])@ == m2.policy@[i]@,
        m1.context.pk_receiver@ == m2.context.pk_receiver@,
        m1.context.nonce_sender == m2.context.nonce_sender,
        m1.proofs@.len() == m2.proofs@.len(),
        forall|k: int| 0 <= k < m1.proofs@.len() ==> same_proof(#[trigger] m1.proofs@[k], m2.proofs@[k]),
{
    lemma_message_field_class();
    lemma_message_as_object(m1);
    lemma_message_as_object(m2);
    let fa = message_fields(m1);
    let fb = message_fields(m2);
    let e = Seq::<u8>::empty();
    assert(object(fa) + e =~= object(fa));
    assert(object(fb) + e =~= object(fb));
    lemma_object_parse(message_field_class(), fa, fb, e, e);
    assert(fa[0] == fb[0]);
    lemma_field_rest(key("policy"@), policy_json(m1.policy@), e, policy_json(m2.policy@), e);
    lemma_policy_parse(m1.policy@, e, m2.policy@, e);
    assert(fa[1] == fb[1]);
    lemma_field_rest(key("context"@), context_json(m1.context), e, context_json(m2.context), e);
    lemma_context_parse(m1.context, e, m2.context, e);
    assert(fa[2] == fb[2]);
    lemma_field_rest(key("proofs"@), proofs_json(m1.proofs@), e, proofs_json(m2.proofs@), e);
    lemma_proofs_parse(m1.proofs@, e, m2.proofs@, e);
}

} // verus!

//! Unique readability of the compact JSON text: every value written by
//! [`crate::json`] can be read back from the front of a byte string, so equal
//! texts come from equal values.

use crate::address::{lemma_value_injective, Address};
use crate::json::{
    address_text, boolean, byte_list, dec, escape, escape_byte, hex, hex_digit, join, list, quoted,
};
use vstd::prelude::*;

verus! {

/// `r` starts with a comma or with `close`.
pub open spec fn delimited(r: Seq<u8>, close: u8) -> bool {
    r.len() > 0 && (r[0] == 44 || r[0] == close)
}

/// Texts of the class `ok` (by position) are non-empty, do not start with
/// `close`, and can be told apart when followed by a comma or `close`.
pub open spec fn self_delimiting(ok: spec_fn(int, Seq<u8>) -> bool, close: u8) -> bool {
    &&& forall|i: int, a: Seq<u8>| #[trigger] ok(i, a) ==> a.len() > 0 && a[0] != close
    &&& forall|i: int, a: Seq<u8>, b: Seq<u8>, r1: Seq<u8>, r2: Seq<u8>|
        #![trigger ok(i, a), ok(i, b), a + r1, b + r2]
        ok(i, a) && ok(i, b) && a + r1 == b + r2 && delimited(r1, close) && delimited(r2, close)
            ==> a == b
}

/// Equal sequences with a common prefix agree after it.
pub proof fn lemma_cancel_prefix(a: Seq<u8>, x: Seq<u8>, y: Seq<u8>)
    requires
        a + x == a + y,
    ensures
        x == y,
{
    assert(x =~= (a + x).skip(a.len() as int));
    assert(y =~= (a + y).skip(a.len() as int));
}

/// Equal sequences whose first parts have the same length agree part by part.
pub proof fn lemma_split_equal(a: Seq<u8>, x: Seq<u8>, b: Seq<u8>, y: Seq<u8>)
    requires
        a + x == b + y,
        a.len() == b.len(),
    ensures
        a == b,
        x == y,
{
    assert(a =~= (a + x).take(a.len() as int));
    assert(b =~= (b + y).take(b.len() as int));
    assert(x =~= (a + x).skip(a.len() as int));
    assert(y =~= (b + y).skip(b.len() as int));
}

/// `join` read from the front: the first item, then a comma and the rest.
pub proof fn lemma_join_front(items: Seq<Seq<u8>>)
    requires
        items.len() >= 1,
    ensures
        items.len() == 1 ==> join(items) == items[0],
        items.len() >= 2 ==> join(items) == items[0] + (seq![44u8] + join(items.skip(1))),
    decreases items.len(),
{
    if items.len() >= 2 {
        let dl = items.drop_last();
        lemma_join_front(dl);
        assert(items.skip(1).drop_last() =~= dl.skip(1));
        if items.len() == 2 {
            assert(dl.skip(1).len() == 0);
            assert(items.skip(1) =~= seq![items[1]]);
            assert(join(items.skip(1)) == items[1]);
            assert(join(items) =~= items[0] + (seq![44u8] + join(items.skip(1))));
        } else {
            assert(join(items) =~= items[0] + (seq![44u8] + join(items.skip(1))));
        }
    }
}

/// A comma-separated sequence of self-delimiting items followed by `close`
/// is read back uniquely.
pub proof fn lemma_join_parse(
    ok: spec_fn(int, Seq<u8>) -> bool,
    close: u8,
    a: Seq<Seq<u8>>,
    b: Seq<Seq<u8>>,
    r1: Seq<u8>,
    r2: Seq<u8>,
    off: int,
)
    requires
        self_delimiting(ok, close),
        close != 44,
        forall|i: int| 0 <= i < a.len() ==> ok(off + i, #[trigger] a[i]),
        forall|i: int| 0 <= i < b.len() ==> ok(off + i, #[trigger] b[i]),
        join(a) + (seq![close] + r1) == join(b) + (seq![close] + r2),
    ensures
        a == b,
        r1 == r2,
    decreases a.len(),
{
    let c1 = seq![close] + r1;
    let c2 = seq![close] + r2;
    if a.len() == 0 && b.len() == 0 {
        assert(join(a) =~= Seq::<u8>::empty());
        assert(join(b) =~= Seq::<u8>::empty());
        assert(c1 =~= join(a) + c1);
        assert(c2 =~= join(b) + c2);
        lemma_cancel_prefix(seq![close], r1, r2);
    } else if a.len() == 0 {
        lemma_join_front(b);
        assert(ok(off + 0, b[0]));
        assert(join(a) + c1 =~= c1);
        let tb = if b.len() == 1 {
            c2
        } else {
            seq![44u8] + (join(b.skip(1)) + c2)
        };
        assert(join(b) + c2 =~= b[0] + tb);
        assert((b[0] + tb)[0] == b[0][0]);
    } else if b.len() == 0 {
        lemma_join_front(a);
        assert(ok(off + 0, a[0]));
        assert(join(b) + c2 =~= c2);
        let ta = if a.len() == 1 {
            c1
        } else {
            seq![44u8] + (join(a.skip(1)) + c1)
        };
        assert(join(a) + c1 =~= a[0] + ta);
        assert((a[0] + ta)[0] == a[0][0]);
    } else {
        lemma_join_front(a);
        lemma_join_front(b);
        assert(ok(off + 0, a[0]));
        assert(ok(off + 0, b[0]));
        let ta = if a.len() == 1 {
            c1
        } else {
            seq![44u8] + (join(a.skip(1)) + c1)
        };
        let tb = if b.len() == 1 {
            c2
        } else {
            seq![44u8] + (join(b.skip(1)) + c2)
        };
        assert(join(a) + c1 =~= a[0] + ta);
        assert(join(b) + c2 =~= b[0] + tb);
        assert(delimited(ta, close));
        assert(delimited(tb, close));
        assert(a[0] + ta == b[0] + tb);
        assert(a[0] == b[0]);
        lemma_cancel_prefix(a[0], ta, tb);
        if a.len() == 1 && b.len() == 1 {
            lemma_cancel_prefix(seq![close], r1, r2);
            assert(a =~= b);
        } else if a.len() == 1 {
            assert(ta[0] == close);
            assert(tb[0] == 44);
        } else if b.len() == 1 {
            assert(ta[0] == 44);
            assert(tb[0] == close);
        } else {
            lemma_cancel_prefix(seq![44u8], join(a.skip(1)) + c1, join(b.skip(1)) + c2);
            assert forall|i: int| 0 <= i < a.skip(1).len() implies ok(
                off + 1 + i,
                #[trigger] a.skip(1)[i],
            ) by {
                assert(ok(off + (i + 1), a[i + 1]));
            }
            assert forall|i: int| 0 <= i < b.skip(1).len() implies ok(
                off + 1 + i,
                #[trigger] b.skip(1)[i],
            ) by {
                assert(ok(off + (i + 1), b[i + 1]));
            }
            lemma_join_parse(ok, close, a.skip(1), b.skip(1), r1, r2, off + 1);
            assert(a =~= seq![a[0]] + a.skip(1));
            assert(b =~= seq![b[0]] + b.skip(1));
        }
    }
}

/// A list of self-delimiting items is read back uniquely.
pub proof fn lemma_list_parse(
    ok: spec_fn(int, Seq<u8>) -> bool,
    a: Seq<Seq<u8>>,
    b: Seq<Seq<u8>>,
    r1: Seq<u8>,
    r2: Seq<u8>,
)
    requires
        self_delimiting(ok, 93u8),
        forall|i: int| 0 <= i < a.len() ==> ok(i, #[trigger] a[i]),
        forall|i: int| 0 <= i < b.len() ==> ok(i, #[trigger] b[i]),
        list(a) + r1 == list(b) + r2,
    ensures
        a == b,
        r1 == r2,
{
    assert(list(a) + r1 =~= seq![91u8] + (join(a) + (seq![93u8] + r1)));
    assert(list(b) + r2 =~= seq![91u8] + (join(b) + (seq![93u8] + r2)));
    lemma_cancel_prefix(seq![91u8], join(a) + (seq![93u8] + r1), join(b) + (seq![93u8] + r2));
    assert forall|i: int| 0 <= i < a.len() implies ok(0 + i, #[trigger] a[i]) by {
        assert(ok(i, a[i]));
    }
    assert forall|i: int| 0 <= i < b.len() implies ok(0 + i, #[trigger] b[i]) by {
        assert(ok(i, b[i]));
    }
    lemma_join_parse(ok, 93u8, a, b, r1, r2, 0);
}

// ---------------------------------------------------------------------------
// Numbers
// ---------------------------------------------------------------------------

/// A decimal digit.
pub open spec fn is_digit(b: u8) -> bool {
    48 <= b <= 57
}

/// The number written by decimal digits.
pub open spec fn digits_value(s: Seq<u8>) -> nat
    decreases s.len(),
{
    if s.len() == 0 {
        0
    } else {
        digits_value(s.drop_last()) * 10 + (s.last() - 48) as nat
    }
}

/// `dec(n)` is a non-empty string of digits whose value is `n`.
pub proof fn lemma_dec_digits(n: nat)
    ensures
        dec(n).len() > 0,
        forall|k: int| 0 <= k < dec(n).len() ==> is_digit(#[trigger] dec(n)[k]),
        digits_value(dec(n)) == n,
    decreases n,
{
    if n >= 10 {
        lemma_dec_digits(n / 10);
        assert(dec(n).drop_last() =~= dec(n / 10));
        assert(dec(n).last() == (48 + n % 10) as u8);
        assert(n == (n / 10) * 10 + n % 10);
        assert(digits_value(dec(n)) == digits_value(dec(n / 10)) * 10 + (dec(n).last() - 48) as nat);
    } else {
        assert(dec(n).drop_last() =~= Seq::<u8>::empty());
        assert(digits_value(dec(n)) == digits_value(dec(n).drop_last()) * 10 + (dec(n).last() - 48) as nat);
    }
}

/// Decimal numbers followed by a non-digit are read back uniquely.
pub proof fn lemma_dec_parse(n1: nat, r1: Seq<u8>, n2: nat, r2: Seq<u8>)
    requires
        dec(n1) + r1 == dec(n2) + r2,
        r1.len() > 0,
        !is_digit(r1[0]),
        r2.len() > 0,
        !is_digit(r2[0]),
    ensures
        n1 == n2,
        r1 == r2,
{
    lemma_dec_digits(n1);
    lemma_dec_digits(n2);
    let l1 = dec(n1).len();
    let l2 = dec(n2).len();
    if l1 < l2 {
        assert((dec(n1) + r1)[l1 as int] == r1[0]);
        assert((dec(n2) + r2)[l1 as int] == dec(n2)[l1 as int]);
    } else if l2 < l1 {
        assert((dec(n2) + r2)[l2 as int] == r2[0]);
        assert((dec(n1) + r1)[l2 as int] == dec(n1)[l2 as int]);
    } else {
        lemma_split_equal(dec(n1), r1, dec(n2), r2);
    }
}

// ---------------------------------------------------------------------------
// Strings
// ---------------------------------------------------------------------------

/// `escape` read from the front.
pub proof fn lemma_escape_front(s: Seq<u8>)
    requires
        s.len() > 0,
    ensures
        escape(s) == escape_byte(s[0]) + escape(s.skip(1)),
    decreases s.len(),
{
    if s.len() == 1 {
        assert(s.drop_last().len() == 0);
        assert(s.skip(1).len() == 0);
        assert(escape(s.drop_last()) == Seq::<u8>::empty());
        assert(escape(s.skip(1)) == Seq::<u8>::empty());
        assert(escape(s) == escape(s.drop_last()) + escape_byte(s.last()));
        assert(s.last() == s[0]);
        assert(escape(s) =~= escape_byte(s[0]) + escape(s.skip(1)));
    } else {
        lemma_escape_front(s.drop_last());
        assert(s.skip(1).drop_last() =~= s.drop_last().skip(1));
        assert(s.skip(1).last() == s.last());
        assert(s.drop_last()[0] == s[0]);
        assert(escape(s.skip(1)) == escape(s.skip(1).drop_last()) + escape_byte(s.skip(1).last()));
        assert(escape(s) == escape(s.drop_last()) + escape_byte(s.last()));
        let a = escape_byte(s[0]);
        let b = escape(s.drop_last().skip(1));
        let c = escape_byte(s.last());
        assert(escape(s.drop_last()) == a + b);
        assert(escape(s.skip(1)) == b + c);
        assert((a + b) + c =~= a + (b + c));
    }
}

proof fn lemma_hex_digit_injective(a: u8, b: u8)
    requires
        a < 16,
        b < 16,
        hex_digit(a) == hex_digit(b),
    ensures
        a == b,
{
}

/// The escape of a byte never starts with a quote, and escapes are read back
/// uniquely.
pub proof fn lemma_escape_byte_parse(a: u8, x: Seq<u8>, b: u8, y: Seq<u8>)
    requires
        escape_byte(a) + x == escape_byte(b) + y,
    ensures
        a == b,
        x == y,
{
    let ea = escape_byte(a);
    let eb = escape_byte(b);
    let s1 = ea + x;
    assert(s1[0] == ea[0]);
    assert((eb + y)[0] == eb[0]);
    if ea.len() == eb.len() {
        assert(s1.take(ea.len() as int) =~= ea);
        assert((eb + y).take(eb.len() as int) =~= eb);
        if ea.len() == 6 {
            assert(a < 32 && b < 32);
            assert(ea[4] == eb[4]);
            assert(ea[5] == eb[5]);
            lemma_hex_digit_injective(a / 16, b / 16);
            lemma_hex_digit_injective(a % 16, b % 16);
        }
        lemma_split_equal(ea, x, eb, y);
    } else {
        // lengths 1, 2 or 6: a one-byte escape is not a backslash, a two-byte
        // escape is not a \u escape
        assert(s1[1] == ea[1] || ea.len() == 1);
        if ea.len() == 1 {
            assert(eb[0] == 92);
        } else if eb.len() == 1 {
            assert(ea[0] == 92);
        } else {
            assert((eb + y)[1] == eb[1]);
            assert(s1[1] == ea[1]);
        }
    }
}

/// Escaped bytes followed by a quote are read back uniquely.
pub proof fn lemma_escape_parse(s1: Seq<u8>, r1: Seq<u8>, s2: Seq<u8>, r2: Seq<u8>)
    requires
        escape(s1) + (seq![34u8] + r1) == escape(s2) + (seq![34u8] + r2),
    ensures
        s1 == s2,
        r1 == r2,
    decreases s1.len(),
{
    if s1.len() == 0 {
        assert(escape(s1) + (seq![34u8] + r1) =~= seq![34u8] + r1);
        if s2.len() > 0 {
            lemma_escape_front(s2);
            assert(escape(s2) + (seq![34u8] + r2) =~= escape_byte(s2[0]) + (escape(s2.skip(1)) + (
            seq![34u8] + r2)));
            assert((escape_byte(s2[0]) + (escape(s2.skip(1)) + (seq![34u8] + r2)))[0] == escape_byte(
                s2[0],
            )[0]);
        } else {
            assert(escape(s2) + (seq![34u8] + r2) =~= seq![34u8] + r2);
            lemma_cancel_prefix(seq![34u8], r1, r2);
        }
    } else if s2.len() == 0 {
        assert(escape(s2) + (seq![34u8] + r2) =~= seq![34u8] + r2);
        lemma_escape_front(s1);
        assert(escape(s1) + (seq![34u8] + r1) =~= escape_byte(s1[0]) + (escape(s1.skip(1)) + (
        seq![34u8] + r1)));
        assert((escape_byte(s1[0]) + (escape(s1.skip(1)) + (seq![34u8] + r1)))[0] == escape_byte(
            s1[0],
        )[0]);
    } else {
        lemma_escape_front(s1);
        lemma_escape_front(s2);
        assert(escape(s1) + (seq![34u8] + r1) =~= escape_byte(s1[0]) + (escape(s1.skip(1)) + (
        seq![34u8] + r1)));
        assert(escape(s2) + (seq![34u8] + r2) =~= escape_byte(s2[0]) + (escape(s2.skip(1)) + (
        seq![34u8] + r2)));
        lemma_escape_byte_parse(
            s1[0],
            escape(s1.skip(1)) + (seq![34u8] + r1),
            s2[0],
            escape(s2.skip(1)) + (seq![34u8] + r2),
        );
        lemma_escape_parse(s1.skip(1), r1, s2.skip(1), r2);
        assert(s1 =~= seq![s1[0]] + s1.skip(1));
        assert(s2 =~= seq![s2[0]] + s2.skip(1));
    }
}

/// JSON strings are read back uniquely.
pub proof fn lemma_quoted_parse(s1: Seq<u8>, r1: Seq<u8>, s2: Seq<u8>, r2: Seq<u8>)
    requires
        quoted(s1) + r1 == quoted(s2) + r2,
    ensures
        s1 == s2,
        r1 == r2,
{
    assert(quoted(s1) + r1 =~= seq![34u8] + (escape(s1) + (seq![34u8] + r1)));
    assert(quoted(s2) + r2 =~= seq![34u8] + (escape(s2) + (seq![34u8] + r2)));
    lemma_cancel_prefix(seq![34u8], escape(s1) + (seq![34u8] + r1), escape(s2) + (seq![34u8] + r2));
    lemma_escape_parse(s1, r1, s2, r2);
}

// ---------------------------------------------------------------------------
// Booleans and hexadecimal
// ---------------------------------------------------------------------------

/// Booleans are read back uniquely.
pub proof fn lemma_boolean_parse(b1: bool, r1: Seq<u8>, b2: bool, r2: Seq<u8>)
    requires
        boolean(b1) + r1 == boolean(b2) + r2,
    ensures
        b1 == b2,
        r1 == r2,
{
    assert((boolean(b1) + r1)[0] == boolean(b1)[0]);
    assert((boolean(b2) + r2)[0] == boolean(b2)[0]);
    lemma_split_equal(boolean(b1), r1, boolean(b2), r2);
}

/// `hex` has two digits per byte and is injective.
pub proof fn lemma_hex_injective(s1: Seq<u8>, s2: Seq<u8>)
    requires
        hex(s1) == hex(s2),
    ensures
        hex(s1).len() == 2 * s1.len(),
        s1 == s2,
    decreases s1.len(),
{
    lemma_hex_len(s1);
    lemma_hex_len(s2);
    if s1.len() > 0 {
        let h1 = hex(s1);
        let h2 = hex(s2);
        let n = h1.len();
        assert(h1[n - 1] == hex_digit(s1.last() % 16));
        assert(h2[n - 1] == hex_digit(s2.last() % 16));
        assert(h1[n - 2] == hex_digit(s1.last() / 16));
        assert(h2[n - 2] == hex_digit(s2.last() / 16));
        lemma_hex_digit_injective(s1.last() % 16, s2.last() % 16);
        lemma_hex_digit_injective(s1.last() / 16, s2.last() / 16);
        assert(hex(s1.drop_last()) =~= h1.take(n - 2));
        assert(hex(s2.drop_last()) =~= h2.take(n - 2));
        lemma_hex_injective(s1.drop_last(), s2.drop_last());
        assert(s1 =~= s1.drop_last().push(s1.last()));
        assert(s2 =~= s2.drop_last().push(s2.last()));
    }
}

/// `hex` has two digits per byte.
pub proof fn lemma_hex_len(s: Seq<u8>)
    ensures
        hex(s).len() == 2 * s.len(),
    decreases s.len(),
{
    if s.len() > 0 {
        lemma_hex_len(s.drop_last());
    }
}

// ---------------------------------------------------------------------------
// Classes of self-delimiting texts
// ---------------------------------------------------------------------------

/// Non-empty strings of decimal digits.
pub open spec fn digit_class() -> spec_fn(int, Seq<u8>) -> bool {
    |i: int, a: Seq<u8>| a.len() > 0 && forall|k: int| 0 <= k < a.len() ==> is_digit(#[trigger] a[k])
}

/// Digit strings followed by a comma or a non-digit `close` are read back uniquely.
pub proof fn lemma_digit_class(close: u8)
    requires
        !is_digit(close),
    ensures
        self_delimiting(digit_class(), close),
{
    let ok = digit_class();
    assert forall|i: int, a: Seq<u8>, b: Seq<u8>, r1: Seq<u8>, r2: Seq<u8>|
        #![trigger ok(i, a), ok(i, b), a + r1, b + r2]
        ok(i, a) && ok(i, b) && a + r1 == b + r2 && delimited(r1, close) && delimited(r2, close)
            implies a == b by {
        if a.len() < b.len() {
            assert((a + r1)[a.len() as int] == r1[0]);
            assert((b + r2)[a.len() as int] == b[a.len() as int]);
            assert(is_digit(b[a.len() as int]));
        } else if b.len() < a.len() {
            assert((b + r2)[b.len() as int] == r2[0]);
            assert((a + r1)[b.len() as int] == a[b.len() as int]);
            assert(is_digit(a[b.len() as int]));
        } else {
            lemma_split_equal(a, r1, b, r2);
        }
    }
    assert forall|i: int, a: Seq<u8>| #[trigger] ok(i, a) implies a.len() > 0 && a[0] != close by {
        assert(is_digit(a[0]));
    }
}

/// JSON strings.
pub open spec fn quoted_class() -> spec_fn(int, Seq<u8>) -> bool {
    |i: int, a: Seq<u8>| exists|s: Seq<u8>| a == #[trigger] quoted(s)
}

/// JSON strings are self-delimiting.
pub proof fn lemma_quoted_class(close: u8)
    requires
        close != 34,
    ensures
        self_delimiting(quoted_class(), close),
{
    let ok = quoted_class();
    assert forall|i: int, a: Seq<u8>, b: Seq<u8>, r1: Seq<u8>, r2: Seq<u8>|
        #![trigger ok(i, a), ok(i, b), a + r1, b + r2]
        ok(i, a) && ok(i, b) && a + r1 == b + r2 && delimited(r1, close) && delimited(r2, close)
            implies a == b by {
        let s1 = choose|s: Seq<u8>| a == #[trigger] quoted(s);
        let s2 = choose|s: Seq<u8>| b == #[trigger] quoted(s);
        lemma_quoted_parse(s1, r1, s2, r2);
    }
    assert forall|i: int, a: Seq<u8>| #[trigger] ok(i, a) implies a.len() > 0 && a[0] != close by {
        let s1 = choose|s: Seq<u8>| a == #[trigger] quoted(s);
        assert(quoted(s1)[0] == 34);
    }
}

/// `true` and `false`.
pub open spec fn boolean_class() -> spec_fn(int, Seq<u8>) -> bool {
    |i: int, a: Seq<u8>| a == boolean(true) || a == boolean(false)
}

/// Booleans are self-delimiting.
pub proof fn lemma_boolean_class(close: u8)
    requires
        close != 116,
        close != 102,
    ensures
        self_delimiting(boolean_class(), close),
{
    let ok = boolean_class();
    assert forall|i: int, a: Seq<u8>, b: Seq<u8>, r1: Seq<u8>, r2: Seq<u8>|
        #![trigger ok(i, a), ok(i, b), a + r1, b + r2]
        ok(i, a) && ok(i, b) && a + r1 == b + r2 && delimited(r1, close) && delimited(r2, close)
            implies a == b by {
        let b1 = a == boolean(true);
        let b2 = b == boolean(true);
        lemma_boolean_parse(b1, r1, b2, r2);
    }
}

/// Lists of numbers (byte strings).
pub open spec fn byte_list_class() -> spec_fn(int, Seq<u8>) -> bool {
    |i: int, a: Seq<u8>| exists|s: Seq<u8>| a == #[trigger] byte_list(s)
}

/// Byte strings written as lists of numbers are read back uniquely.
pub proof fn lemma_byte_list_parse(s1: Seq<u8>, r1: Seq<u8>, s2: Seq<u8>, r2: Seq<u8>)
    requires
        byte_list(s1) + r1 == byte_list(s2) + r2,
    ensures
        s1 == s2,
        r1 == r2,
{
    let i1 = Seq::new(s1.len(), |i: int| dec(s1[i] as nat));
    let i2 = Seq::new(s2.len(), |i: int| dec(s2[i] as nat));
    lemma_digit_class(93u8);
    let ok = digit_class();
    assert forall|i: int| 0 <= i < i1.len() implies ok(i, #[trigger] i1[i]) by {
        lemma_dec_digits(s1[i] as nat);
    }
    assert forall|i: int| 0 <= i < i2.len() implies ok(i, #[trigger] i2[i]) by {
        lemma_dec_digits(s2[i] as nat);
    }
    lemma_list_parse(ok, i1, i2, r1, r2);
    assert forall|i: int| 0 <= i < s1.len() implies s1[i] == s2[i] by {
        assert(i1[i] == i2[i]);
        lemma_dec_digits(s1[i] as nat);
        lemma_dec_digits(s2[i] as nat);
    }
    assert(s1 =~= s2);
}

/// Lists of numbers are self-delimiting.
pub proof fn lemma_byte_list_class(close: u8)
    requires
        close != 91,
    ensures
        self_delimiting(byte_list_class(), close),
{
    let ok = byte_list_class();
    assert forall|i: int, a: Seq<u8>, b: Seq<u8>, r1: Seq<u8>, r2: Seq<u8>|
        #![trigger ok(i, a), ok(i, b), a + r1, b + r2]
        ok(i, a) && ok(i, b) && a + r1 == b + r2 && delimited(r1, close) && delimited(r2, close)
            implies a == b by {
        let s1 = choose|s: Seq<u8>| a == #[trigger] byte_list(s);
        let s2 = choose|s: Seq<u8>| b == #[trigger] byte_list(s);
        lemma_byte_list_parse(s1, r1, s2, r2);
    }
    assert forall|i: int, a: Seq<u8>| #[trigger] ok(i, a) implies a.len() > 0 && a[0] != close by {
        let s1 = choose|s: Seq<u8>| a == #[trigger] byte_list(s);
        assert(byte_list(s1)[0] == 91);
    }
}

/// Addresses are read back uniquely.
pub proof fn lemma_address_parse(a1: Address, r1: Seq<u8>, a2: Address, r2: Seq<u8>)
    requires
        address_text(a1) + r1 == address_text(a2) + r2,
    ensures
        a1 == a2,
        r1 == r2,
{
    lemma_hex_len(a1@);
    lemma_hex_len(a2@);
    lemma_split_equal(address_text(a1), r1, address_text(a2), r2);
    assert(hex(a1@) =~= address_text(a1).subrange(3, 43));
    assert(hex(a2@) =~= address_text(a2).subrange(3, 43));
    lemma_hex_injective(a1@, a2@);
    lemma_value_injective(a1, a2);
}

/// A JSON object: its fields (key and value texts) comma-separated in braces.
pub open spec fn object(fields: Seq<Seq<u8>>) -> Seq<u8> {
    seq![123u8] + join(fields) + seq![125u8]
}

/// An object whose fields are self-delimiting is read back uniquely.
pub proof fn lemma_object_parse(
    ok: spec_fn(int, Seq<u8>) -> bool,
    a: Seq<Seq<u8>>,
    b: Seq<Seq<u8>>,
    r1: Seq<u8>,
    r2: Seq<u8>,
)
    requires
        self_delimiting(ok, 125u8),
        forall|i: int| 0 <= i < a.len() ==> ok(i, #[trigger] a[i]),
        forall|i: int| 0 <= i < b.len() ==> ok(i, #[trigger] b[i]),
        object(a) + r1 == object(b) + r2,
    ensures
        a == b,
        r1 == r2,
{
    assert(object(a) + r1 =~= seq![123u8] + (join(a) + (seq![125u8] + r1)));
    assert(object(b) + r2 =~= seq![123u8] + (join(b) + (seq![125u8] + r2)));
    lemma_cancel_prefix(seq![123u8], join(a) + (seq![125u8] + r1), join(b) + (seq![125u8] + r2));
    assert forall|i: int| 0 <= i < a.len() implies ok(0 + i, #[trigger] a[i]) by {
        assert(ok(i, a[i]));
    }
    assert forall|i: int| 0 <= i < b.len() implies ok(0 + i, #[trigger] b[i]) by {
        assert(ok(i, b[i]));
    }
    lemma_join_parse(ok, 125u8, a, b, r1, r2, 0);
}

/// `join` of a list extended by one item.
pub proof fn lemma_join_push(items: Seq<Seq<u8>>, x: Seq<u8>)
    requires
        items.len() > 0,
    ensures
        join(items.push(x)) == join(items) + (seq![44u8] + x),
{
    assert(items.push(x).drop_last() =~= items);
    assert(join(items.push(x)) =~= join(items) + (seq![44u8] + x));
}

/// Read a field `k + v` followed by more text: with the key in common, the
/// rest starts with the value.
pub proof fn lemma_field_rest(k: Seq<u8>, v1: Seq<u8>, r1: Seq<u8>, v2: Seq<u8>, r2: Seq<u8>)
    requires
        (k + v1) + r1 == (k + v2) + r2,
    ensures
        v1 + r1 == v2 + r2,
{
    assert((k + v1) + r1 =~= k + (v1 + r1));
    assert((k + v2) + r2 =~= k + (v2 + r2));
    lemma_cancel_prefix(k, v1 + r1, v2 + r2);
}

} // verus!

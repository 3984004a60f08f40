//! 20-byte account addresses.
//!
//! Addresses are ordered by their big-endian numeric value, which is the
//! same as the lexicographic order of their bytes.

use vstd::prelude::*;

verus! {

/// Big-endian numeric value of a byte string.
pub open spec fn be_value(s: Seq<u8>) -> nat
    decreases s.len(),
{
    if s.len() == 0 {
        0
    } else {
        be_value(s.drop_last()) * 256 + s.last() as nat
    }
}

/// A 20-byte account address.
#[derive(Clone, Copy, Debug, PartialEq, Eq, PartialOrd, Ord, Hash)]
pub struct Address {
    pub bytes: [u8; 20],
}

impl View for Address {
    type V = Seq<u8>;

    open spec fn view(&self) -> Seq<u8> {
        self.bytes@
    }
}

/// Outcome of comparing two addresses.
#[derive(Clone, Copy, Debug, PartialEq, Eq)]
pub enum AddrOrder {
    Less,
    Equal,
    Greater,
}

impl Address {
    /// Numeric value of the address (big-endian).
    pub open spec fn value(self) -> nat {
        be_value(self@)
    }

    /// Builds an address from its 20 bytes.
    pub fn new(bytes: [u8; 20]) -> (a: Address)
        ensures
            a.bytes == bytes,
    {
        Address { bytes }
    }

    /// Builds an address from the last 20 bytes of `s`'s 20-byte window at `start`.
    pub fn from_slice_at(s: &[u8], start: usize) -> (a: Address)
        requires
            start + 20 <= s@.len(),
        ensures
            a@ == s@.subrange(start as int, start + 20),
    {
        let n = s.len();
        let mut bytes = [0u8; 20];
        let mut i: usize = 0;
        while i < 20
            invariant
                start + 20 <= s@.len(),
                n == s@.len(),
                0 <= i <= 20,
                forall|j: int| 0 <= j < i ==> bytes@[j] == s@[start + j],
            decreases 20 - i,
        {
            bytes[i] = s[start + i];
            i = i + 1;
        }
        let a = Address { bytes };
        assert(a@ =~= s@.subrange(start as int, start + 20));
        a
    }

    /// Three-way comparison by numeric value.
    pub fn order_with(&self, other: &Address) -> (r: AddrOrder)
        ensures
            r == AddrOrder::Less <==> self.value() < other.value(),
            r == AddrOrder::Greater <==> self.value() > other.value(),
            r == AddrOrder::Equal <==> *self == *other,
    {
        let mut i: usize = 0;
        while i < 20
            invariant
                0 <= i <= 20,
                self@.len() == 20,
                other@.len() == 20,
                self@.take(i as int) =~= other@.take(i as int),
            decreases 20 - i,
        {
            let x = self.bytes[i];
            let y = other.bytes[i];
            if x < y {
                proof {
                    lemma_be_lex(self@, other@, i as int);
                    lemma_value_injective_contra(*self, *other);
                }
                return AddrOrder::Less;
            } else if x > y {
                proof {
                    lemma_be_lex(other@, self@, i as int);
                    lemma_value_injective_contra(*self, *other);
                }
                return AddrOrder::Greater;
            }
            assert(self@.take(i + 1) =~= self@.take(i as int).push(x));
            assert(other@.take(i + 1) =~= other@.take(i as int).push(y));
            i = i + 1;
        }
        assert(self@ =~= self@.take(20));
        assert(other@ =~= other@.take(20));
        assert(self.bytes =~= other.bytes);
        AddrOrder::Equal
    }

    /// `self < other` by numeric value.
    pub fn lt(&self, other: &Address) -> (r: bool)
        ensures
            r == (self.value() < other.value()),
    {
        match self.order_with(other) {
            AddrOrder::Less => true,
            _ => false,
        }
    }

    /// Byte-wise equality.
    pub fn eq(&self, other: &Address) -> (r: bool)
        ensures
            r == (*self == *other),
    {
        match self.order_with(other) {
            AddrOrder::Equal => true,
            _ => false,
        }
    }
}

/// If two equal-length byte strings agree before position `i` and `a[i] < b[i]`,
/// then `a` is numerically smaller than `b`.
pub proof fn lemma_be_lex(a: Seq<u8>, b: Seq<u8>, i: int)
    requires
        a.len() == b.len(),
        0 <= i < a.len(),
        a.take(i) == b.take(i),
        a[i] < b[i],
    ensures
        be_value(a) < be_value(b),
    decreases a.len(),
{
    if a.len() == i + 1 {
        assert(a.drop_last() =~= a.take(i));
        assert(b.drop_last() =~= b.take(i));
    } else {
        let a1 = a.drop_last();
        let b1 = b.drop_last();
        assert(a1.take(i) =~= a.take(i));
        assert(b1.take(i) =~= b.take(i));
        lemma_be_lex(a1, b1, i);
        assert(be_value(a) == be_value(a1) * 256 + a.last());
        assert(be_value(b) == be_value(b1) * 256 + b.last());
    }
}

/// Equal-length byte strings with the same numeric value are equal.
pub proof fn lemma_be_injective(a: Seq<u8>, b: Seq<u8>)
    requires
        a.len() == b.len(),
        be_value(a) == be_value(b),
    ensures
        a == b,
    decreases a.len(),
{
    if a.len() > 0 {
        let a1 = a.drop_last();
        let b1 = b.drop_last();
        assert(be_value(a) == be_value(a1) * 256 + a.last());
        assert(be_value(b) == be_value(b1) * 256 + b.last());
        assert(be_value(a1) == be_value(b1) && a.last() == b.last()) by (nonlinear_arith)
            requires
                be_value(a1) * 256 + a.last() == be_value(b1) * 256 + b.last(),
                0 <= a.last() < 256,
                0 <= b.last() < 256,
        ;
        lemma_be_injective(a1, b1);
        assert(a =~= a1.push(a.last()));
        assert(b =~= b1.push(b.last()));
    } else {
        assert(a =~= b);
    }
}

/// Two addresses with the same numeric value are the same address.
pub proof fn lemma_value_injective(a: Address, b: Address)
    requires
        a.value() == b.value(),
    ensures
        a == b,
{
    lemma_be_injective(a@, b@);
    assert(a.bytes =~= b.bytes);
}

proof fn lemma_value_injective_contra(a: Address, b: Address)
    ensures
        a.value() != b.value() ==> a != b,
{
}

} // verus!

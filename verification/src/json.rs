//! Compact JSON text of byte strings, numbers, booleans and lists, as the
//! signed message is framed: strings are escaped byte-wise (quote, backslash
//! and control bytes), numbers are decimal, byte strings are lists of numbers,
//! and lists are comma-separated without spaces.

use crate::address::Address;
use vstd::prelude::*;
use vstd::utf8::encode_utf8;

verus! {

/// Decimal digits of `n`.
pub open spec fn dec(n: nat) -> Seq<u8>
    decreases n,
{
    if n < 10 {
        seq![(48 + n) as u8]
    } else {
        dec(n / 10).push((48 + n % 10) as u8)
    }
}

/// JSON escape of one byte.
pub open spec fn escape_byte(b: u8) -> Seq<u8> {
    if b == 34 {
        seq![92u8, 34u8]
    } else if b == 92 {
        seq![92u8, 92u8]
    } else if b == 8 {
        seq![92u8, 98u8]
    } else if b == 9 {
        seq![92u8, 116u8]
    } else if b == 10 {
        seq![92u8, 110u8]
    } else if b == 12 {
        seq![92u8, 102u8]
    } else if b == 13 {
        seq![92u8, 114u8]
    } else if b < 32 {
        seq![92u8, 117u8, 48u8, 48u8, hex_digit(b / 16), hex_digit(b % 16)]
    } else {
        seq![b]
    }
}

/// Lower-case hexadecimal digit of `v < 16`.
pub open spec fn hex_digit(v: u8) -> u8 {
    if v < 10 {
        (48 + v) as u8
    } else {
        (87 + v) as u8
    }
}

/// JSON escape of a byte string.
pub open spec fn escape(s: Seq<u8>) -> Seq<u8>
    decreases s.len(),
{
    if s.len() == 0 {
        seq![]
    } else {
        escape(s.drop_last()) + escape_byte(s.last())
    }
}

/// A JSON string holding the bytes `s`.
pub open spec fn quoted(s: Seq<u8>) -> Seq<u8> {
    seq![34u8] + escape(s) + seq![34u8]
}

/// An object key followed by the colon.
pub open spec fn key(name: Seq<char>) -> Seq<u8> {
    quoted(encode_utf8(name)).push(58u8)
}

/// Items separated by commas.
pub open spec fn join(items: Seq<Seq<u8>>) -> Seq<u8>
    decreases items.len(),
{
    if items.len() == 0 {
        seq![]
    } else if items.len() == 1 {
        items[0]
    } else {
        join(items.drop_last()).push(44u8) + items.last()
    }
}

/// A JSON list of the given item texts.
pub open spec fn list(items: Seq<Seq<u8>>) -> Seq<u8> {
    seq![91u8] + join(items) + seq![93u8]
}

/// A byte string as a JSON list of numbers.
pub open spec fn byte_list(s: Seq<u8>) -> Seq<u8> {
    list(Seq::new(s.len(), |i: int| dec(s[i] as nat)))
}

/// `true` or `false`.
pub open spec fn boolean(b: bool) -> Seq<u8> {
    if b {
        seq![116u8, 114u8, 117u8, 101u8]
    } else {
        seq![102u8, 97u8, 108u8, 115u8, 101u8]
    }
}

/// Two lower-case hexadecimal digits per byte.
pub open spec fn hex(s: Seq<u8>) -> Seq<u8>
    decreases s.len(),
{
    if s.len() == 0 {
        seq![]
    } else {
        hex(s.drop_last()).push(hex_digit(s.last() / 16)).push(hex_digit(s.last() % 16))
    }
}

/// An address as a `0x`-prefixed lower-case hexadecimal JSON string.
pub open spec fn address_text(a: Address) -> Seq<u8> {
    seq![34u8, 48u8, 120u8] + hex(a@) + seq![34u8]
}

pub proof fn lemma_join_step(items: Seq<Seq<u8>>, k: int)
    requires
        0 <= k < items.len(),
    ensures
        join(items.take(k + 1)) == if k == 0 {
            items[0]
        } else {
            join(items.take(k)).push(44u8) + items[k]
        },
{
    assert(items.take(k + 1).drop_last() =~= items.take(k));
}

fn hex_digit_exec(v: u8) -> (r: u8)
    requires
        v < 16,
    ensures
        r == hex_digit(v),
{
    if v < 10 {
        48 + v
    } else {
        87 + v
    }
}

/// Append the decimal digits of `n`.
pub fn write_dec(out: &mut Vec<u8>, n: u64)
    ensures
        final(out)@ == old(out)@ + dec(n as nat),
    decreases n,
{
    if n >= 10 {
        write_dec(out, n / 10);
    }
    out.push(48 + (n % 10) as u8);
    proof {
        if n >= 10 {
            assert(final(out)@ =~= old(out)@ + dec(n as nat));
        } else {
            assert(final(out)@ =~= old(out)@ + dec(n as nat));
        }
    }
}

fn write_escaped_byte(out: &mut Vec<u8>, b: u8)
    ensures
        final(out)@ == old(out)@ + escape_byte(b),
{
    if b == 34 {
        out.push(92);
        out.push(34);
    } else if b == 92 {
        out.push(92);
        out.push(92);
    } else if b == 8 {
        out.push(92);
        out.push(98);
    } else if b == 9 {
        out.push(92);
        out.push(116);
    } else if b == 10 {
        out.push(92);
        out.push(110);
    } else if b == 12 {
        out.push(92);
        out.push(102);
    } else if b == 13 {
        out.push(92);
        out.push(114);
    } else if b < 32 {
        out.push(92);
        out.push(117);
        out.push(48);
        out.push(48);
        out.push(hex_digit_exec(b / 16));
        out.push(hex_digit_exec(b % 16));
    } else {
        out.push(b);
    }
    assert(final(out)@ =~= old(out)@ + escape_byte(b));
}

/// Append `s` as a JSON string.
pub fn write_quoted(out: &mut Vec<u8>, s: &[u8])
    ensures
        final(out)@ == old(out)@ + quoted(s@),
{
    out.push(34);
    let ghost start = out@;
    let mut i: usize = 0;
    while i < s.len()
        invariant
            0 <= i <= s@.len(),
            out@ == start + escape(s@.take(i as int)),
        decreases s@.len() - i,
    {
        write_escaped_byte(out, s[i]);
        proof {
            assert(s@.take(i + 1).drop_last() =~= s@.take(i as int));
            assert(out@ =~= start + escape(s@.take(i + 1)));
        }
        i = i + 1;
    }
    out.push(34);
    proof {
        assert(s@.take(s@.len() as int) =~= s@);
        assert(final(out)@ =~= old(out)@ + quoted(s@));
    }
}

/// Append an object key and its colon.
pub fn write_key(out: &mut Vec<u8>, name: &str)
    ensures
        final(out)@ == old(out)@ + key(name@),
{
    write_quoted(out, name.as_bytes());
    out.push(58);
    assert(final(out)@ =~= old(out)@ + key(name@));
}

/// Append `true` or `false`.
pub fn write_bool(out: &mut Vec<u8>, b: bool)
    ensures
        final(out)@ == old(out)@ + boolean(b),
{
    if b {
        out.push(116);
        out.push(114);
        out.push(117);
        out.push(101);
    } else {
        out.push(102);
        out.push(97);
        out.push(108);
        out.push(115);
        out.push(101);
    }
    assert(final(out)@ =~= old(out)@ + boolean(b));
}

/// Append a byte string as a list of numbers.
pub fn write_byte_list(out: &mut Vec<u8>, s: &[u8])
    ensures
        final(out)@ == old(out)@ + byte_list(s@),
{
    let ghost items = Seq::new(s@.len(), |i: int| dec(s@[i] as nat));
    out.push(91);
    let ghost start = out@;
    let mut i: usize = 0;
    while i < s.len()
        invariant
            0 <= i <= s@.len(),
            items == Seq::new(s@.len(), |i: int| dec(s@[i] as nat)),
            out@ == start + join(items.take(i as int)),
        decreases s@.len() - i,
    {
        let ghost before = out@;
        if i > 0 {
            out.push(44);
        }
        write_dec(out, s[i] as u64);
        proof {
            lemma_join_step(items, i as int);
            assert(out@ =~= start + join(items.take(i + 1)));
        }
        i = i + 1;
    }
    out.push(93);
    proof {
        assert(items.take(s@.len() as int) =~= items);
        assert(final(out)@ =~= old(out)@ + byte_list(s@));
    }
}

/// Append an address as a `0x`-prefixed hexadecimal string.
pub fn write_address(out: &mut Vec<u8>, a: &Address)
    ensures
        final(out)@ == old(out)@ + address_text(*a),
{
    out.push(34);
    out.push(48);
    out.push(120);
    let ghost start = out@;
    let mut i: usize = 0;
    while i < 20
        invariant
            0 <= i <= 20,
            a@.len() == 20,
            out@ == start + hex(a@.take(i as int)),
        decreases 20 - i,
    {
        let b = a.bytes[i];
        out.push(hex_digit_exec(b / 16));
        out.push(hex_digit_exec(b % 16));
        proof {
            assert(a@.take(i + 1).drop_last() =~= a@.take(i as int));
            assert(out@ =~= start + hex(a@.take(i + 1)));
        }
        i = i + 1;
    }
    out.push(34);
    proof {
        assert(a@.take(20) =~= a@);
        assert(final(out)@ =~= old(out)@ + address_text(*a));
    }
}

} // verus!

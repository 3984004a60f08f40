//! Sorting a list of addresses into strictly increasing order, dropping duplicates.

use crate::address::{Address, AddrOrder};
use crate::tree_model::strictly_sorted;
use vstd::prelude::*;

verus! {

broadcast use vstd::seq_lib::group_seq_properties;

/// Merge two strictly sorted lists into one strictly sorted list holding the
/// elements of both, each once.
fn merge_dedup(a: &Vec<Address>, b: &Vec<Address>) -> (r: Vec<Address>)
    requires
        strictly_sorted(a@),
        strictly_sorted(b@),
    ensures
        strictly_sorted(r@),
        forall|x: Address| r@.contains(x) <==> (a@.contains(x) || b@.contains(x)),
{
    let mut r: Vec<Address> = Vec::new();
    let mut i: usize = 0;
    let mut j: usize = 0;
    let na = a.len();
    let nb = b.len();
    while i < na || j < nb
        invariant
            na == a@.len(),
            nb == b@.len(),
            0 <= i <= na,
            0 <= j <= nb,
            strictly_sorted(a@),
            strictly_sorted(b@),
            strictly_sorted(r@),
            forall|x: Address|
                r@.contains(x) <==> (a@.take(i as int).contains(x) || b@.take(j as int).contains(x)),
            r@.len() > 0 && i < na ==> r@.last().value() < a@[i as int].value(),
            r@.len() > 0 && j < nb ==> r@.last().value() < b@[j as int].value(),
        decreases na + nb - i - j,
    {
        let ghost old_r = r@;
        let ghost ta = a@.take(i as int);
        let ghost tb = b@.take(j as int);
        if i < na && j < nb {
            let x = a[i];
            let y = b[j];
            match x.order_with(&y) {
                AddrOrder::Less => {
                    r.push(x);
                    assert(a@.take(i + 1) =~= ta.push(x));
                    i = i + 1;
                },
                AddrOrder::Greater => {
                    r.push(y);
                    assert(b@.take(j + 1) =~= tb.push(y));
                    j = j + 1;
                },
                AddrOrder::Equal => {
                    r.push(x);
                    assert(a@.take(i + 1) =~= ta.push(x));
                    assert(b@.take(j + 1) =~= tb.push(y));
                    i = i + 1;
                    j = j + 1;
                },
            }
        } else if i < na {
            let x = a[i];
            r.push(x);
            assert(a@.take(i + 1) =~= ta.push(x));
            i = i + 1;
        } else {
            let y = b[j];
            r.push(y);
            assert(b@.take(j + 1) =~= tb.push(y));
            j = j + 1;
        }
        assert(r@ == old_r.push(r@.last()));
        assert forall|p: int, q: int| 0 <= p < q < r@.len() implies r@[p].value() < r@[q].value() by {
            if q == r@.len() - 1 && p < q {
                if old_r.len() > 0 {
                    assert(old_r[p].value() <= old_r.last().value());
                }
            }
        }
    }
    assert(a@.take(na as int) =~= a@);
    assert(b@.take(nb as int) =~= b@);
    r
}

/// Strictly sorted, duplicate-free list of the elements of `v[lo..hi]`.
fn sort_dedup_range(v: &Vec<Address>, lo: usize, hi: usize) -> (r: Vec<Address>)
    requires
        lo <= hi <= v@.len(),
    ensures
        strictly_sorted(r@),
        forall|x: Address| r@.contains(x) <==> v@.subrange(lo as int, hi as int).contains(x),
    decreases hi - lo,
{
    if hi - lo == 0 {
        let r: Vec<Address> = Vec::new();
        assert(v@.subrange(lo as int, hi as int) =~= Seq::<Address>::empty());
        r
    } else if hi - lo == 1 {
        let mut r: Vec<Address> = Vec::new();
        r.push(v[lo]);
        assert(v@.subrange(lo as int, hi as int) =~= seq![v@[lo as int]]);
        assert(r@ =~= seq![v@[lo as int]]);
        r
    } else {
        let mid = lo + (hi - lo) / 2;
        let left = sort_dedup_range(v, lo, mid);
        let right = sort_dedup_range(v, mid, hi);
        let r = merge_dedup(&left, &right);
        assert(v@.subrange(lo as int, hi as int) =~= v@.subrange(lo as int, mid as int) + v@.subrange(
            mid as int,
            hi as int,
        ));
        r
    }
}

/// Strictly sorted, duplicate-free list of the addresses of `v`.
pub fn sort_dedup(v: &Vec<Address>) -> (r: Vec<Address>)
    ensures
        strictly_sorted(r@),
        forall|x: Address| r@.contains(x) <==> v@.contains(x),
{
    let r = sort_dedup_range(v, 0, v.len());
    assert(v@.subrange(0, v@.len() as int) =~= v@);
    r
}

} // verus!

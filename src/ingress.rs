//! Turning an upstream snapshot, the list of indices whose bit is set, into
//! an initial bitset or into the change batch of one tick.

use crate::bits::Bits;
use vstd::prelude::*;

verus! {

/// Whether `i` occurs in `indices`.
pub open spec fn listed(indices: Seq<usize>, i: int) -> bool {
    exists|k: int| 0 <= k < indices.len() && indices[k] == i
}

/// The change batch that sets each in-range index of `indices`, in order.
pub open spec fn set_changes(indices: Seq<usize>, len: usize) -> Seq<(usize, bool)> {
    indices.filter(|i: usize| i < len).map_values(|i: usize| (i, true))
}

/// A bitset of `len` bits in which exactly the listed indices are set;
/// indices out of range are ignored.
pub fn bits_from_indices(indices: &Vec<usize>, len: usize) -> (r: Bits)
    requires
        len <= usize::MAX / 8,
    ensures
        r@ == Seq::new(len as nat, |i: int| listed(indices@, i)),
{
    let mut bits = Bits::zeroed(len);
    let mut k: usize = 0;
    while k < indices.len()
        invariant
            k <= indices@.len(),
            bits@ == Seq::new(len as nat, |i: int| listed(indices@.take(k as int), i)),
        decreases indices@.len() - k,
    {
        let index = indices[k];
        if index < len {
            bits.set(index, true);
        }
        proof {
            let t = indices@.take(k + 1);
            assert forall|i: int| 0 <= i < len implies bits@[i] == listed(t, i) by {
                if i == index {
                    assert(t[k as int] == index);
                } else if listed(t, i) {
                    let w = choose|w: int| 0 <= w < t.len() && t[w] == i;
                    assert(indices@.take(k as int)[w] == i);
                } else if listed(indices@.take(k as int), i) {
                    let w = choose|w: int| 0 <= w < k && indices@.take(k as int)[w] == i;
                    assert(t[w] == i);
                }
            }
            assert(bits@ =~= Seq::new(len as nat, |i: int| listed(t, i)));
        }
        k += 1;
    }
    assert(indices@.take(k as int) =~= indices@);
    bits
}

/// The change batch that sets each in-range index of `indices`, in order.
pub fn changes_from_indices(indices: &Vec<usize>, len: usize) -> (r: Vec<(usize, bool)>)
    ensures
        r@ == set_changes(indices@, len),
{
    let mut out: Vec<(usize, bool)> = Vec::new();
    let mut k: usize = 0;
    while k < indices.len()
        invariant
            k <= indices@.len(),
            out@ == set_changes(indices@.take(k as int), len),
        decreases indices@.len() - k,
    {
        let index = indices[k];
        proof {
            reveal(Seq::filter);
            assert(indices@.take(k + 1).drop_last() =~= indices@.take(k as int));
        }
        if index < len {
            out.push((index, true));
        }
        proof {
            let p = |i: usize| i < len;
            let f = |i: usize| (i, true);
            let prev = indices@.take(k as int).filter(p);
            if index < len {
                assert(indices@.take(k + 1).filter(p) == prev.push(index));
                assert(prev.push(index).map_values(f) =~= prev.map_values(f).push((index, true)));
            } else {
                assert(indices@.take(k + 1).filter(p) == prev);
            }
        }
        k += 1;
    }
    assert(indices@.take(k as int) =~= indices@);
    out
}

} // verus!

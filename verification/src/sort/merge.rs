use super::ascending;
use crate::order::{at_most, less, TotalKey};
use vstd::multiset::Multiset;
use vstd::prelude::*;

verus! {

/// Sorts the slice by sorting its halves and merging them. Of two items
/// that compare as equal the one that came first stays first.
pub fn msort<T: TotalKey + Copy>(arr: &mut [T])
    ensures
        ascending(final(arr)@),
        final(arr)@.to_multiset() == old(arr)@.to_multiset(),
{
    let len: usize = arr.len();
    let aux = sorted_part(arr, 0, len);
    proof {
        assert(arr@.subrange(0, len as int) =~= arr@);
    }
    let mut i: usize = 0;
    while i < len
        invariant
            arr@.len() == len,
            aux@.len() == len,
            i <= len,
            forall|k: int| 0 <= k < i ==> arr@[k] == aux@[k],
        decreases len - i,
    {
        arr[i] = aux[i];
        i += 1;
    }
    proof {
        assert(arr@ =~= aux@);
    }
}

/// A sorted copy of the items from `from` up to `to`.
fn sorted_part<T: TotalKey + Copy>(arr: &[T], from: usize, to: usize) -> (out: Vec<T>)
    requires
        from <= to <= arr@.len(),
    ensures
        ascending(out@),
        out@.to_multiset() == arr@.subrange(from as int, to as int).to_multiset(),
        out@.len() == to - from,
    decreases to - from,
{
    proof {
        T::order_laws();
    }
    if to - from < 2 {
        let mut out: Vec<T> = Vec::new();
        if to - from == 1 {
            out.push(arr[from]);
            proof {
                assert(arr@.subrange(from as int, to as int) =~= Seq::<T>::empty().push(
                    arr@[from as int],
                ));
                assert(out@ =~= Seq::<T>::empty().push(arr@[from as int]));
            }
        } else {
            proof {
                assert(arr@.subrange(from as int, to as int) =~= out@);
            }
        }
        return out;
    }
    let mid: usize = from + (to - from) / 2;
    let left = sorted_part(arr, from, mid);
    let right = sorted_part(arr, mid, to);
    let out = merge(&left, &right);
    proof {
        let l = arr@.subrange(from as int, mid as int);
        let r = arr@.subrange(mid as int, to as int);
        assert(arr@.subrange(from as int, to as int) =~= l + r);
        vstd::seq_lib::lemma_multiset_commutative(l, r);
        out@.to_multiset_ensures();
        arr@.subrange(from as int, to as int).to_multiset_ensures();
    }
    out
}

/// Merges two sorted runs into one. Of two items that compare as equal the
/// one of the left run comes first.
fn merge<T: TotalKey + Copy>(left: &Vec<T>, right: &Vec<T>) -> (out: Vec<T>)
    requires
        ascending(left@),
        ascending(right@),
    ensures
        ascending(out@),
        out@.to_multiset() == left@.to_multiset().add(right@.to_multiset()),
{
    let mut out: Vec<T> = Vec::new();
    let mut l: usize = 0;
    let mut r: usize = 0;
    proof {
        assert(left@.subrange(0, 0) =~= Seq::<T>::empty());
        assert(right@.subrange(0, 0) =~= Seq::<T>::empty());
        assert(out@ =~= Seq::<T>::empty());
        Seq::<T>::empty().to_multiset_ensures();
        assert(Seq::<T>::empty().to_multiset() =~= Multiset::<T>::empty());
        assert(out@.to_multiset() =~= left@.subrange(0, 0).to_multiset().add(
            right@.subrange(0, 0).to_multiset(),
        ));
    }
    while l < left.len() || r < right.len()
        invariant
            l <= left@.len(),
            r <= right@.len(),
            ascending(left@),
            ascending(right@),
            ascending(out@),
            out@.to_multiset() == left@.subrange(0, l as int).to_multiset().add(
                right@.subrange(0, r as int).to_multiset(),
            ),
            forall|i: int, j: int|
                0 <= i < out@.len() && l <= j < left@.len() ==> at_most(#[trigger] out@[i], #[trigger] left@[j]),
            forall|i: int, j: int|
                0 <= i < out@.len() && r <= j < right@.len() ==> at_most(#[trigger] out@[i], #[trigger] right@[j]),
        decreases left@.len() - l + right@.len() - r,
    {
        proof {
            T::order_laws();
        }
        let ghost before = out@;
        if l >= left.len() || (r < right.len() && less(&right[r], &left[l])) {
            out.push(right[r]);
            proof {
                assert(right@.subrange(0, r + 1) =~= right@.subrange(0, r as int).push(
                    right@[r as int],
                ));
                assert(out@ == before.push(right@[r as int]));
                vstd::seq_lib::to_multiset_build(before, right@[r as int]);
                vstd::seq_lib::to_multiset_build(right@.subrange(0, r as int), right@[r as int]);
                assert(out@.to_multiset() == before.to_multiset().insert(right@[r as int]));
                assert(right@.subrange(0, r + 1).to_multiset() == right@.subrange(
                    0,
                    r as int,
                ).to_multiset().insert(right@[r as int]));
                assert(out@.to_multiset() =~= left@.subrange(0, l as int).to_multiset().add(
                    right@.subrange(0, r + 1).to_multiset(),
                ));
            }
            r += 1;
        } else {
            out.push(left[l]);
            proof {
                assert(left@.subrange(0, l + 1) =~= left@.subrange(0, l as int).push(
                    left@[l as int],
                ));
                assert(out@ == before.push(left@[l as int]));
                vstd::seq_lib::to_multiset_build(before, left@[l as int]);
                vstd::seq_lib::to_multiset_build(left@.subrange(0, l as int), left@[l as int]);
                assert(out@.to_multiset() == before.to_multiset().insert(left@[l as int]));
                assert(left@.subrange(0, l + 1).to_multiset() == left@.subrange(
                    0,
                    l as int,
                ).to_multiset().insert(left@[l as int]));
                assert(out@.to_multiset() =~= left@.subrange(0, l + 1).to_multiset().add(
                    right@.subrange(0, r as int).to_multiset(),
                ));
            }
            l += 1;
        }
    }
    proof {
        assert(left@.subrange(0, l as int) =~= left@);
        assert(right@.subrange(0, r as int) =~= right@);
    }
    out
}

} // verus!

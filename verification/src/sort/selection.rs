use super::{ascending, ascending_within, split_at_most, swap_items};
use crate::order::{at_most, less, precedes, TotalKey};
use vstd::prelude::*;

verus! {

/// Index of the first least item from `from` on.
pub fn min_index<T: TotalKey>(arr: &[T], from: usize) -> (min: usize)
    requires
        from < arr@.len(),
    ensures
        from <= min < arr@.len(),
        forall|k: int| from <= k < arr@.len() ==> at_most(arr@[min as int], #[trigger] arr@[k]),
        forall|k: int| from <= k < min ==> precedes(arr@[min as int], #[trigger] arr@[k]),
{
    proof {
        T::order_laws();
    }
    let len: usize = arr.len();
    let mut min: usize = from;
    let mut i: usize = from + 1;
    while i < len
        invariant
            len == arr@.len(),
            from <= min < i <= arr@.len(),
            forall|k: int| from <= k < i ==> at_most(arr@[min as int], #[trigger] arr@[k]),
            forall|k: int| from <= k < min ==> precedes(arr@[min as int], #[trigger] arr@[k]),
        decreases arr@.len() - i,
    {
        proof {
            T::order_laws();
        }
        if less(&arr[i], &arr[min]) {
            min = i;
        }
        i += 1;
    }
    min
}

/// Sorts the slice by putting the least of the remaining items next.
pub fn selection<T: TotalKey>(arr: &mut [T])
    ensures
        ascending(final(arr)@),
        final(arr)@.to_multiset() == old(arr)@.to_multiset(),
{
    let len: usize = arr.len();
    let mut left: usize = 0;
    while left < len
        invariant
            arr@.len() == len,
            left <= len,
            arr@.to_multiset() == old(arr)@.to_multiset(),
            ascending_within(arr@, 0, left as int),
            split_at_most(arr@, 0, left as int, len as int),
        decreases len - left,
    {
        let min = min_index(arr, left);
        swap_items(arr, left, min);
        left += 1;
    }
}

} // verus!

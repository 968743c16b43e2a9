use super::{ascending, ascending_within, swap_items};
use crate::order::{at_most, less, TotalKey};
use vstd::prelude::*;

verus! {

/// Sorts the slice by moving each item down into the sorted items before it.
pub fn insertion<T: TotalKey>(arr: &mut [T])
    ensures
        ascending(final(arr)@),
        final(arr)@.to_multiset() == old(arr)@.to_multiset(),
{
    proof {
        T::order_laws();
    }
    let len: usize = arr.len();
    let mut out: usize = 1;
    while out < len
        invariant
            arr@.len() == len,
            1 <= out,
            arr@.to_multiset() == old(arr)@.to_multiset(),
            ascending_within(arr@, 0, if out <= len { out as int } else { len as int }),
        decreases len - out,
    {
        proof {
            T::order_laws();
        }
        let mut n: usize = out;
        while n > 0 && less(&arr[n], &arr[n - 1])
            invariant
                arr@.len() == len,
                n <= out < len,
                arr@.to_multiset() == old(arr)@.to_multiset(),
                ascending_within(arr@, 0, n as int),
                ascending_within(arr@, n as int, out + 1),
                forall|i: int, j: int|
                    0 <= i < n && n < j <= out ==> at_most(#[trigger] arr@[i], #[trigger] arr@[j]),
            decreases n,
        {
            proof {
                T::order_laws();
            }
            swap_items(arr, n, n - 1);
            n -= 1;
        }
        out += 1;
    }
}

} // verus!

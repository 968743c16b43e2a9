use super::{ascending, ascending_within, split_at_most, swap_items};
use crate::order::{at_most, less, TotalKey};
use vstd::prelude::*;

verus! {

/// Sorts the slice by letting the greatest item of each pass rise to the
/// end, and stops after a pass without an exchange.
pub fn bubble<T: TotalKey>(arr: &mut [T])
    ensures
        ascending(final(arr)@),
        final(arr)@.to_multiset() == old(arr)@.to_multiset(),
{
    proof {
        T::order_laws();
    }
    let n: usize = arr.len();
    let mut out: usize = 1;
    let mut done: bool = false;
    while !done && out < n
        invariant
            arr@.len() == n,
            1 <= out,
            out <= n || n == 0,
            arr@.to_multiset() == old(arr)@.to_multiset(),
            ascending_within(arr@, n - out + 1, n as int),
            split_at_most(arr@, 0, n - out + 1, n as int),
            done ==> ascending(arr@),
        decreases n - out + (if done { 0int } else { 1int }),
    {
        proof {
            T::order_laws();
        }
        let mut swapped: bool = false;
        let mut i: usize = 0;
        while i < n - out
            invariant
                arr@.len() == n,
                1 <= out < n,
                i <= n - out,
                arr@.to_multiset() == old(arr)@.to_multiset(),
                ascending_within(arr@, n - out + 1, n as int),
                split_at_most(arr@, 0, n - out + 1, n as int),
                forall|k: int| 0 <= k <= i ==> at_most(#[trigger] arr@[k], arr@[i as int]),
                !swapped ==> ascending_within(arr@, 0, i + 1),
            decreases n - out - i,
        {
            proof {
                T::order_laws();
            }
            if less(&arr[i + 1], &arr[i]) {
                swap_items(arr, i, i + 1);
                swapped = true;
            }
            i += 1;
        }
        if !swapped {
            done = true;
        } else {
            out += 1;
        }
    }
}

} // verus!

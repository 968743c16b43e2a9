use super::{ascending, ascending_within, swap_items};
use crate::order::{at_most, less, TotalKey};
use vstd::prelude::*;

verus! {

/// Dividing the interval by three again and again arrives at one.
pub open spec fn reaches_one(interval: nat) -> bool
    decreases interval,
{
    interval == 1 || (interval > 1 && reaches_one(interval / 3))
}

/// Sorts the slice by insertion over shrinking intervals, the last of which
/// is one.
pub fn shell<T: TotalKey>(arr: &mut [T])
    ensures
        ascending(final(arr)@),
        final(arr)@.to_multiset() == old(arr)@.to_multiset(),
{
    let len: usize = arr.len();
    let mut itrval: usize = 1;
    while itrval < len / 3
        invariant
            1 <= itrval,
            itrval <= len || itrval == 1,
            reaches_one(itrval as nat),
        decreases len - itrval,
    {
        proof {
            assert((3 * itrval + 1) / 3 == itrval);
        }
        itrval = 3 * itrval + 1;
    }
    while itrval >= 1
        invariant
            arr@.len() == len,
            arr@.to_multiset() == old(arr)@.to_multiset(),
            itrval >= 1 ==> reaches_one(itrval as nat),
            itrval == 0 ==> ascending(arr@),
        decreases itrval,
    {
        proof {
            T::order_laws();
        }
        let mut right: usize = itrval;
        while right < len
            invariant
                arr@.len() == len,
                itrval >= 1,
                itrval <= right,
                right <= len || right == itrval,
                arr@.to_multiset() == old(arr)@.to_multiset(),
                itrval == 1 ==> ascending_within(
                    arr@,
                    0,
                    if right <= len {
                        right as int
                    } else {
                        len as int
                    },
                ),
            decreases len - right,
        {
            proof {
                T::order_laws();
            }
            let mut left: usize = right;
            while left >= itrval && less(&arr[left], &arr[left - itrval])
                invariant
                    arr@.len() == len,
                    itrval >= 1,
                    left <= right < len,
                    arr@.to_multiset() == old(arr)@.to_multiset(),
                    itrval == 1 ==> ascending_within(arr@, 0, left as int),
                    itrval == 1 ==> ascending_within(arr@, left as int, right + 1),
                    itrval == 1 ==> forall|i: int, j: int|
                        0 <= i < left && left < j <= right ==> at_most(#[trigger] arr@[i], #[trigger] arr@[j]),
                decreases left,
            {
                proof {
                    T::order_laws();
                }
                swap_items(arr, left, left - itrval);
                left -= itrval;
            }
            right += 1;
        }
        proof {
            if itrval == 1 {
                assert(ascending(arr@));
            }
        }
        itrval /= 3;
    }
}

} // verus!

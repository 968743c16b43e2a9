use crate::order::{at_most, precedes, Rel, TotalKey};
use crate::sort::ascending;
use vstd::prelude::*;

verus! {

/// Looks `x` up in a sorted slice by halving the range. Returns the index of
/// its first occurrence.
pub fn binary_search<T: TotalKey>(seq: &[T], x: T) -> (found: Option<usize>)
    requires
        ascending(seq@),
    ensures
        match found {
            Some(at) => {
                &&& at < seq@.len()
                &&& seq@[at as int] == x
                &&& forall|k: int| 0 <= k < at ==> precedes(#[trigger] seq@[k], x)
            },
            None => forall|k: int| 0 <= k < seq@.len() ==> #[trigger] seq@[k] != x,
        },
{
    let mut low: usize = 0;
    let mut high: usize = seq.len();
    while low < high
        invariant
            low <= high <= seq@.len(),
            ascending(seq@),
            forall|k: int| 0 <= k < low ==> precedes(#[trigger] seq@[k], x),
            forall|k: int| high <= k < seq@.len() ==> at_most(x, #[trigger] seq@[k]),
        decreases high - low,
    {
        proof {
            T::order_laws();
        }
        let mid: usize = low + (high - low) / 2;
        if x.compare(&seq[mid]) == Rel::Greater {
            low = mid + 1;
        } else {
            high = mid;
        }
    }
    if low < seq.len() && x.compare(&seq[low]) == Rel::Equal {
        Some(low)
    } else {
        None
    }
}

} // verus!

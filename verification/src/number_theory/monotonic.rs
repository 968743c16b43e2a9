use crate::order::{at_most, precedes, Rel, TotalKey};
use crate::sort::ascending_within;
use vstd::prelude::*;

verus! {

/// The items from `from` up to `to` never ascend.
pub open spec fn descending_within<T: TotalKey>(s: Seq<T>, from: int, to: int) -> bool {
    forall|i: int, j: int| from <= i <= j < to ==> at_most(#[trigger] s[j], #[trigger] s[i])
}

/// The sequence never descends, or it never ascends.
pub open spec fn monotonic<T: TotalKey>(s: Seq<T>) -> bool {
    ascending_within(s, 0, s.len() as int) || descending_within(s, 0, s.len() as int)
}

/// Whether the items of a slice that is not empty never descend or never
/// ascend.
pub fn is_monotonic<T: TotalKey>(arr: &[T]) -> (yes: bool)
    requires
        arr@.len() > 0,
    ensures
        yes == monotonic(arr@),
{
    proof {
        T::order_laws();
    }
    let mut up: bool = true;
    let mut down: bool = true;
    let len: usize = arr.len();
    let mut i: usize = 0;
    while i < len - 1
        invariant
            len == arr@.len(),
            i <= len - 1,
            up == ascending_within(arr@, 0, i + 1),
            down == descending_within(arr@, 0, i + 1),
            up || down,
        decreases len - i,
    {
        proof {
            T::order_laws();
        }
        match arr[i].compare(&arr[i + 1]) {
            Rel::Greater => {
                up = false;
            },
            Rel::Less => {
                down = false;
            },
            Rel::Equal => (),
        }
        proof {
            let a = arr@[i as int];
            let b = arr@[i + 1];
            if at_most(a, b) && ascending_within(arr@, 0, i + 1) {
                assert forall|p: int, q: int| 0 <= p <= q < i + 2 implies at_most(#[trigger] arr@[p], #[trigger] arr@[q]) by {
                    if q == i + 1 && p <= i {
                        assert(at_most(arr@[p], arr@[i as int]));
                    }
                }
            }
            if at_most(b, a) && descending_within(arr@, 0, i + 1) {
                assert forall|p: int, q: int| 0 <= p <= q < i + 2 implies at_most(#[trigger] arr@[q], #[trigger] arr@[p]) by {
                    if q == i + 1 && p <= i {
                        assert(at_most(arr@[i as int], arr@[p]));
                    }
                }
            }
            if precedes(b, a) {
                assert(!ascending_within(arr@, 0, i + 2));
            }
            if precedes(a, b) {
                assert(!descending_within(arr@, 0, i + 2));
            }
        }
        if !(up || down) {
            proof {
                assert(!ascending_within(arr@, 0, len as int));
                assert(!descending_within(arr@, 0, len as int));
            }
            return false;
        }
        i += 1;
    }
    up || down
}

} // verus!

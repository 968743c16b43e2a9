use super::{ascending, ascending_within, split_at_most, swap_items};
use crate::order::{at_most, less, TotalKey};
use vstd::prelude::*;

verus! {

/// The item at `i` is no less than its children among the first `end` items.
pub open spec fn tops_children<T: TotalKey>(s: Seq<T>, i: int, end: int) -> bool {
    &&& 2 * i + 1 < end ==> at_most(s[2 * i + 1], s[i])
    &&& 2 * i + 2 < end ==> at_most(s[2 * i + 2], s[i])
}

/// Among the first `end` items, each one from `start` on is no less than its
/// children.
pub open spec fn heap_from<T: TotalKey>(s: Seq<T>, start: int, end: int) -> bool {
    forall|i: int| start <= i < end ==> #[trigger] tops_children(s, i, end)
}

/// The first item of a heap is its greatest.
pub proof fn lemma_root_is_greatest<T: TotalKey>(s: Seq<T>, end: int, i: int)
    requires
        heap_from(s, 0, end),
        0 <= i < end <= s.len(),
    ensures
        at_most(s[i], s[0]),
    decreases i,
{
    T::order_laws();
    if i > 0 {
        let p = (i - 1) / 2;
        assert(tops_children(s, p, end));
        lemma_root_is_greatest(s, end, p);
    }
}

/// Lets the item at `parent` sink among the first `end` items until it is no
/// less than its children.
fn sink<T: TotalKey>(arr: &mut [T], parent: usize, end: usize, Ghost(bound): Ghost<T>)
    requires
        parent < end <= old(arr)@.len(),
        heap_from(old(arr)@, parent + 1, end as int),
        forall|i: int| 0 <= i < end ==> at_most(#[trigger] old(arr)@[i], bound),
    ensures
        final(arr)@.len() == old(arr)@.len(),
        final(arr)@.to_multiset() == old(arr)@.to_multiset(),
        heap_from(final(arr)@, parent as int, end as int),
        forall|i: int| 0 <= i < parent ==> final(arr)@[i] == old(arr)@[i],
        forall|i: int| end <= i < old(arr)@.len() ==> final(arr)@[i] == old(arr)@[i],
        forall|i: int| 0 <= i < end ==> at_most(#[trigger] final(arr)@[i], bound),
{
    let start: usize = parent;
    let mut parent: usize = parent;
    while parent < end / 2
        invariant
            start <= parent < end <= arr@.len(),
            arr@.len() == old(arr)@.len(),
            arr@.to_multiset() == old(arr)@.to_multiset(),
            forall|i: int| start <= i < end && i != parent ==> #[trigger] tops_children(arr@, i, end as int),
            parent > start ==> {
                &&& 2 * parent + 1 < end ==> at_most(arr@[2 * parent + 1], arr@[(parent - 1) / 2])
                &&& 2 * parent + 2 < end ==> at_most(arr@[2 * parent + 2], arr@[(parent - 1) / 2])
                &&& (parent - 1) / 2 >= start
            },
            forall|i: int| 0 <= i < start ==> arr@[i] == old(arr)@[i],
            forall|i: int| end <= i < arr@.len() ==> arr@[i] == old(arr)@[i],
            forall|i: int| 0 <= i < end ==> at_most(#[trigger] arr@[i], bound),
        decreases end - parent,
    {
        proof {
            T::order_laws();
        }
        let left: usize = 2 * parent + 1;
        let right: usize = left + 1;
        let max: usize = if right < end && less(&arr[left], &arr[right]) {
            right
        } else {
            left
        };
        let ghost before = arr@;
        if less(&arr[parent], &arr[max]) {
            swap_items(arr, parent, max);
        }
        proof {
            assert(tops_children(before, max as int, end as int));
            assert(tops_children(arr@, parent as int, end as int));
            assert forall|i: int| start <= i < end && i != max implies #[trigger] tops_children(
                arr@,
                i,
                end as int,
            ) by {
                if i != parent {
                    assert(tops_children(before, i, end as int));
                    if parent > start && i == (parent - 1) / 2 {
                    }
                }
            }
            assert((max - 1) / 2 == parent);
        }
        parent = max;
    }
    proof {
        assert(tops_children(arr@, parent as int, end as int));
    }
}

/// Sorts the slice by building a heap and moving its greatest item to the
/// end again and again.
pub fn heap<T: TotalKey>(arr: &mut [T])
    ensures
        ascending(final(arr)@),
        final(arr)@.to_multiset() == old(arr)@.to_multiset(),
{
    proof {
        T::order_laws();
    }
    let len: usize = arr.len();
    if len < 2 {
        return;
    }
    let mut parent: usize = len / 2;
    while parent > 0
        invariant
            arr@.len() == len,
            parent <= len / 2,
            arr@.to_multiset() == old(arr)@.to_multiset(),
            heap_from(arr@, parent as int, len as int),
        decreases parent,
    {
        parent -= 1;
        let ghost top = greatest(arr@, len as int);
        proof {
            lemma_greatest(arr@, len as int);
        }
        sink(arr, parent, len, Ghost(top));
    }
    let mut end: usize = len;
    while end > 1
        invariant
            arr@.len() == len,
            1 <= end <= len,
            arr@.to_multiset() == old(arr)@.to_multiset(),
            heap_from(arr@, 0, end as int),
            ascending_within(arr@, end as int, len as int),
            split_at_most(arr@, 0, end as int, len as int),
        decreases end,
    {
        proof {
            T::order_laws();
        }
        end -= 1;
        let ghost before = arr@;
        proof {
            assert forall|i: int| 0 <= i <= end implies at_most(#[trigger] before[i], before[0]) by {
                lemma_root_is_greatest(before, end + 1, i);
            }
        }
        swap_items(arr, 0, end);
        proof {
            assert forall|i: int| 1 <= i < end implies #[trigger] tops_children(
                arr@,
                i,
                end as int,
            ) by {
                assert(tops_children(before, i, end + 1));
            }
        }
        sink(arr, 0, end, Ghost(before[0]));
    }
}

/// The greatest of the first `end` items.
pub open spec fn greatest<T: TotalKey>(s: Seq<T>, end: int) -> T
    decreases end,
{
    if end <= 1 {
        s[0]
    } else if at_most(s[end - 1], greatest(s, end - 1)) {
        greatest(s, end - 1)
    } else {
        s[end - 1]
    }
}

/// None of the first `end` items comes after the greatest.
pub proof fn lemma_greatest<T: TotalKey>(s: Seq<T>, end: int)
    requires
        end <= s.len(),
    ensures
        forall|i: int| 0 <= i < end ==> at_most(#[trigger] s[i], greatest(s, end)),
    decreases end,
{
    T::order_laws();
    T::order_laws();
    if end > 1 {
        lemma_greatest(s, end - 1);
    }
}

} // verus!

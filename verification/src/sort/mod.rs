use crate::order::{at_most, TotalKey};
use vstd::prelude::*;

pub mod bubble;
pub mod heap;
pub mod insertion;
pub mod merge;
pub mod quick;
pub mod selection;
pub mod shell;

pub use self::bubble::bubble;
pub use self::heap::heap;
pub use self::insertion::insertion;
pub use self::merge::msort;
pub use self::quick::qsort;
pub use self::selection::selection;
pub use self::shell::shell;

verus! {

/// The items from `from` up to `to` never descend.
pub open spec fn ascending_within<T: TotalKey>(s: Seq<T>, from: int, to: int) -> bool {
    forall|i: int, j: int| from <= i <= j < to ==> at_most(#[trigger] s[i], #[trigger] s[j])
}

/// The sequence never descends.
pub open spec fn ascending<T: TotalKey>(s: Seq<T>) -> bool {
    ascending_within(s, 0, s.len() as int)
}

/// No item from `from` up to `mid` comes after an item from `mid` up to `to`.
pub open spec fn split_at_most<T: TotalKey>(s: Seq<T>, from: int, mid: int, to: int) -> bool {
    forall|i: int, j: int|
        from <= i < mid && mid <= j < to ==> at_most(#[trigger] s[i], #[trigger] s[j])
}

/// The sequence with the items at `i` and `j` exchanged.
pub open spec fn exchanged<T>(s: Seq<T>, i: int, j: int) -> Seq<T> {
    s.update(i, s[j]).update(j, s[i])
}

/// Calls `swap` of `core::slice`: it exchanges the items at the two indices,
/// which lie within the slice, and leaves the others in place.
#[verifier::external_body]
fn swap_slots<T>(arr: &mut [T], i: usize, j: usize)
    requires
        i < old(arr)@.len(),
        j < old(arr)@.len(),
    ensures
        final(arr)@ == exchanged(old(arr)@, i as int, j as int),
{
    arr.swap(i, j)
}

/// An exchange rearranges the items and adds or drops none.
pub proof fn lemma_exchanged_same_items<T>(s: Seq<T>, i: int, j: int)
    requires
        0 <= i < s.len(),
        0 <= j < s.len(),
    ensures
        exchanged(s, i, j).to_multiset() == s.to_multiset(),
        exchanged(s, i, j).len() == s.len(),
{
    broadcast use vstd::seq_lib::to_multiset_update;

    let mid = s.update(i, s[j]);
    assert(mid.to_multiset() == s.to_multiset().insert(s[j]).remove(s[i]));
    assert(mid[j] == s[j]);
    assert(exchanged(s, i, j).to_multiset() == mid.to_multiset().insert(s[i]).remove(s[j]));
    s.to_multiset_ensures();
    assert(s.to_multiset().count(s[i]) > 0) by {
        assert(s.to_multiset().contains(s[i]));
    }
    assert(exchanged(s, i, j).to_multiset() =~= s.to_multiset());
}

/// Exchanges two items of the slice.
pub fn swap_items<T>(arr: &mut [T], i: usize, j: usize)
    requires
        i < old(arr)@.len(),
        j < old(arr)@.len(),
    ensures
        final(arr)@ == exchanged(old(arr)@, i as int, j as int),
        final(arr)@.to_multiset() == old(arr)@.to_multiset(),
        final(arr)@.len() == old(arr)@.len(),
{
    proof {
        lemma_exchanged_same_items(arr@, i as int, j as int);
    }
    swap_slots(arr, i, j);
}

} // verus!

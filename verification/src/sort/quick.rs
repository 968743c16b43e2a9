use super::{ascending, swap_items};
use crate::order::{at_most, precedes, Rel, TotalKey};
use vstd::prelude::*;

verus! {

/// Calls `shuffle` of rand's `SliceRandom` with the generator that rand's
/// `thread_rng` hands out. The order that comes out is a matter of chance;
/// whatever it is, the slice holds the same items as before, since the
/// shuffle does nothing but exchange items of the slice.
#[verifier::external_body]
fn shuffle_items<T>(arr: &mut [T])
    ensures
        final(arr)@.to_multiset() == old(arr)@.to_multiset(),
        final(arr)@.len() == old(arr)@.len(),
{
    let mut rng = rand::thread_rng();
    rand::seq::SliceRandom::shuffle(arr, &mut rng);
}

/// Sorts the slice by shuffling it and then parting it again and again
/// around its first item.
pub fn qsort<T: TotalKey + Copy>(arr: &mut [T])
    ensures
        ascending(final(arr)@),
        final(arr)@.to_multiset() == old(arr)@.to_multiset(),
{
    shuffle_items(arr);
    quick(arr);
}

/// Every item of `s` comes before `bound`.
pub open spec fn all_below<T: TotalKey>(s: Seq<T>, bound: T) -> bool {
    forall|i: int| 0 <= i < s.len() ==> precedes(#[trigger] s[i], bound)
}

/// Every item of `s` comes after `bound`.
pub open spec fn all_above<T: TotalKey>(s: Seq<T>, bound: T) -> bool {
    forall|i: int| 0 <= i < s.len() ==> precedes(bound, #[trigger] s[i])
}

/// A rearrangement of items below a bound stays below it, and likewise above.
pub proof fn lemma_same_items_same_bounds<T: TotalKey>(a: Seq<T>, b: Seq<T>, bound: T)
    requires
        a.to_multiset() == b.to_multiset(),
    ensures
        all_below(a, bound) ==> all_below(b, bound),
        all_above(a, bound) ==> all_above(b, bound),
        a.len() == b.len(),
{
    T::order_laws();
    a.to_multiset_ensures();
    b.to_multiset_ensures();
    assert forall|i: int| 0 <= i < b.len() implies a.contains(#[trigger] b[i]) by {
        assert(b.contains(b[i]));
        assert(b.to_multiset().count(b[i]) > 0);
    }
    if all_below(a, bound) {
        assert forall|i: int| 0 <= i < b.len() implies precedes(#[trigger] b[i], bound) by {
            let k = choose|k: int| 0 <= k < a.len() && a[k] == b[i];
            assert(precedes(a[k], bound));
        }
    }
    if all_above(a, bound) {
        assert forall|i: int| 0 <= i < b.len() implies precedes(bound, #[trigger] b[i]) by {
            let k = choose|k: int| 0 <= k < a.len() && a[k] == b[i];
            assert(precedes(bound, a[k]));
        }
    }
}

/// Parts the slice around its first item into the items before it, those
/// equal to it and those after it, and sorts the first and the last part in
/// the same way.
fn quick<T: TotalKey + Copy>(part: &mut [T])
    ensures
        ascending(final(part)@),
        final(part)@.to_multiset() == old(part)@.to_multiset(),
    decreases old(part)@.len(),
{
    proof {
        T::order_laws();
    }
    let len: usize = part.len();
    if len <= 1 {
        return;
    }
    let mut lt: usize = 0;
    let mut idx: usize = 1;
    let mut gt: usize = len - 1;
    let sample: T = part[0];
    while idx <= gt
        invariant
            part@.len() == len,
            lt < idx <= gt + 1 <= len,
            part@.to_multiset() == old(part)@.to_multiset(),
            forall|k: int| 0 <= k < lt ==> precedes(#[trigger] part@[k], sample),
            forall|k: int| lt <= k < idx ==> (#[trigger] part@[k]) == sample,
            forall|k: int| gt < k < len ==> precedes(sample, #[trigger] part@[k]),
        decreases gt + 1 - idx,
    {
        match part[idx].compare(&sample) {
            Rel::Less => {
                swap_items(part, lt, idx);
                lt += 1;
                idx += 1;
            },
            Rel::Greater => {
                swap_items(part, idx, gt);
                gt -= 1;
            },
            Rel::Equal => {
                idx += 1;
            },
        }
    }
    let ghost parted = part@;
    let ghost low = parted.subrange(0, lt as int);
    let ghost mid = parted.subrange(lt as int, gt + 1);
    let ghost high = parted.subrange(gt + 1, len as int);
    let (left, rest) = part.split_at_mut(lt);
    quick(left);
    let (middle, right) = rest.split_at_mut(gt + 1 - lt);
    quick(right);
    proof {
        let rest0 = parted.subrange(lt as int, len as int);
        assert(rest0.subrange(0, gt + 1 - lt) =~= mid);
        assert(rest0.subrange(gt + 1 - lt, rest0.len() as int) =~= high);
        assert(parted =~= low + (mid + high));
        let low2 = left@;
        let high2 = right@;
        assert(middle@ == mid);
        assert(part@ == low2 + (mid + high2));
        vstd::seq_lib::lemma_multiset_commutative(mid, high);
        vstd::seq_lib::lemma_multiset_commutative(low, mid + high);
        vstd::seq_lib::lemma_multiset_commutative(mid, high2);
        vstd::seq_lib::lemma_multiset_commutative(low2, mid + high2);
        assert(all_below(low, sample));
        assert(all_above(high, sample));
        lemma_same_items_same_bounds(low, low2, sample);
        lemma_same_items_same_bounds(high, high2, sample);
        let s = part@;
        let a = low2.len() as int;
        let b = a + mid.len();
        assert forall|i: int| 0 <= i < s.len() implies (if i < a {
            s[i] == low2[i]
        } else if i < b {
            s[i] == mid[i - a]
        } else {
            s[i] == high2[i - b]
        }) by {}
        assert forall|i: int, j: int| 0 <= i <= j < s.len() implies at_most(#[trigger] s[i], #[trigger] s[j]) by {
            if i < a {
                assert(s[i] == low2[i]);
            } else if i < b {
                assert(s[i] == mid[i - a]);
            } else {
                assert(s[i] == high2[i - b]);
            }
            if j < a {
                assert(s[j] == low2[j]);
            } else if j < b {
                assert(s[j] == mid[j - a]);
            } else {
                assert(s[j] == high2[j - b]);
            }
        }
    }
}

} // verus!

use crate::order::{at_most, less, precedes, TotalKey};
use crate::sort::{ascending_within, swap_items};
use vstd::prelude::*;

verus! {

/// The item at `i` comes before the one that follows it.
pub open spec fn ascent_at<T: TotalKey>(s: Seq<T>, i: int) -> bool {
    0 <= i < s.len() - 1 && precedes(s[i], s[i + 1])
}

/// `pivot` is the place of the last ascent of `before`, and `after` is
/// `before` with the pivot replaced by the least later item that comes after
/// it and with the items behind the pivot in ascending order.
pub open spec fn steps_at<T: TotalKey>(before: Seq<T>, after: Seq<T>, pivot: int) -> bool {
    &&& ascent_at(before, pivot)
    &&& forall|i: int| pivot < i ==> !#[trigger] ascent_at(before, i)
    &&& after.len() == before.len()
    &&& forall|i: int| 0 <= i < pivot ==> #[trigger] after[i] == before[i]
    &&& precedes(before[pivot], after[pivot])
    &&& forall|k: int|
        pivot < k < before.len() && precedes(before[pivot], #[trigger] before[k])
            ==> at_most(after[pivot], before[k])
    &&& ascending_within(after, pivot + 1, after.len() as int)
}

/// Rearranges the items into the next arrangement in dictionary order and
/// returns `true`. Where there is none, because no item comes before the one
/// that follows it, the slice stays as it is and the result is `false`.
pub fn next_permutation<T: TotalKey>(seq: &mut [T]) -> (advanced: bool)
    ensures
        final(seq)@.to_multiset() == old(seq)@.to_multiset(),
        advanced == exists|i: int| ascent_at(old(seq)@, i),
        !advanced ==> final(seq)@ == old(seq)@,
        advanced ==> exists|pivot: int| steps_at(old(seq)@, final(seq)@, pivot),
{
    proof {
        T::order_laws();
    }
    let len: usize = seq.len();
    if len < 2 {
        return false;
    }
    let mut at: usize = len - 1;
    let mut found: bool = false;
    while at > 0 && !found
        invariant
            seq@ == old(seq)@,
            seq@.len() == len,
            at <= len - 1,
            found ==> ascent_at(seq@, at as int),
            forall|i: int| at <= i && !(found && i == at) ==> !#[trigger] ascent_at(seq@, i),
        decreases at + (if found { 0int } else { 1int }),
    {
        at -= 1;
        if less(&seq[at], &seq[at + 1]) {
            found = true;
        }
    }
    if !found {
        return false;
    }
    let rmost_lt: usize = at;
    let mut supremum: usize = len - 1;
    while !less(&seq[rmost_lt], &seq[supremum])
        invariant
            seq@ == old(seq)@,
            seq@.len() == len,
            rmost_lt < supremum < len,
            ascent_at(seq@, rmost_lt as int),
            forall|i: int| rmost_lt < i ==> !#[trigger] ascent_at(seq@, i),
            forall|k: int| supremum < k < len ==> at_most(#[trigger] seq@[k], seq@[rmost_lt as int]),
        decreases supremum,
    {
        supremum -= 1;
    }
    proof {
        assert forall|i: int, j: int| rmost_lt < i <= j < len implies at_most(#[trigger] seq@[j], #[trigger] seq@[i]) by {
            lemma_no_ascent_descends(seq@, rmost_lt + 1, i, j);
        }
    }
    swap_items(seq, rmost_lt, supremum);
    let ghost mid = seq@;
    proof {
        assert forall|i: int, j: int| rmost_lt < i <= j < len implies at_most(#[trigger] mid[j], #[trigger] mid[i]) by {
            assert(at_most(old(seq)@[j], old(seq)@[i]));
        }
        assert forall|k: int|
            rmost_lt < k < len && precedes(old(seq)@[rmost_lt as int], #[trigger] old(seq)@[k]) implies at_most(mid[rmost_lt as int], old(seq)@[k]) by {
            if k <= supremum {
                assert(at_most(old(seq)@[supremum as int], old(seq)@[k]));
            }
        }
    }
    let mut head: usize = rmost_lt + 1;
    let mut tail: usize = len - 1;
    while head < tail
        invariant
            seq@.len() == len,
            mid.len() == len,
            rmost_lt < head <= len,
            rmost_lt <= tail < len,
            head + tail == rmost_lt + len,
            seq@.to_multiset() == old(seq)@.to_multiset(),
            old(seq)@.len() == len,
            ascent_at(old(seq)@, rmost_lt as int),
            forall|i: int| rmost_lt < i ==> !#[trigger] ascent_at(old(seq)@, i),
            forall|i: int, j: int|
                rmost_lt < i <= j < len ==> at_most(#[trigger] mid[j], #[trigger] mid[i]),
            forall|k: int| 0 <= k < rmost_lt ==> mid[k] == old(seq)@[k],
            precedes(old(seq)@[rmost_lt as int], mid[rmost_lt as int]),
            forall|k: int|
                rmost_lt < k < len && precedes(old(seq)@[rmost_lt as int], #[trigger] old(seq)@[k]) ==> at_most(mid[rmost_lt as int], old(seq)@[k]),
            forall|k: int| 0 <= k <= rmost_lt ==> seq@[k] == mid[k],
            forall|k: int| head <= k <= tail ==> seq@[k] == mid[k],
            forall|k: int|
                rmost_lt < k < len && (k < head || tail < k) ==> seq@[k] == mid[rmost_lt + len - k],
        decreases len - head,
    {
        swap_items(seq, head, tail);
        head += 1;
        tail -= 1;
    }
    proof {
        assert forall|k: int| rmost_lt < k < len implies seq@[k] == mid[rmost_lt + len - k] by {
            if head <= k <= tail {
                assert(k == head && head == tail);
            }
        }
        assert forall|i: int, j: int| rmost_lt + 1 <= i <= j < len implies at_most(#[trigger] seq@[i], #[trigger] seq@[j]) by {
            assert(at_most(mid[rmost_lt + len - i], mid[rmost_lt + len - j]));
        }
        assert(ascent_at(old(seq)@, rmost_lt as int));
        let before = old(seq)@;
        let after = seq@;
        let pivot = rmost_lt as int;
        assert(after[pivot] == mid[pivot]);
        assert forall|i: int| 0 <= i < pivot implies #[trigger] after[i] == before[i] by {
            assert(after[i] == mid[i]);
            assert(mid[i] == before[i]);
        }
        assert(precedes(before[pivot], after[pivot]));
        assert(forall|k: int|
            pivot < k < before.len() && precedes(before[pivot], #[trigger] before[k])
                ==> at_most(after[pivot], before[k]));
        assert(ascending_within(after, pivot + 1, after.len() as int));
        assert(steps_at(old(seq)@, seq@, rmost_lt as int));
    }
    true
}

/// Where no item from `from` on comes before the one that follows it, no
/// item comes before any later one.
pub proof fn lemma_no_ascent_descends<T: TotalKey>(s: Seq<T>, from: int, i: int, j: int)
    requires
        forall|k: int| from <= k ==> !#[trigger] ascent_at(s, k),
        0 <= from <= i <= j < s.len(),
    ensures
        at_most(s[j], s[i]),
    decreases j - i,
{
    T::order_laws();
    if i < j {
        assert(!ascent_at(s, j - 1));
        lemma_no_ascent_descends(s, from, i, j - 1);
    }
}

} // verus!

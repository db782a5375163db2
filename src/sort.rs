//! In-place quicksort of a slice of integers.
use vstd::prelude::*;
use vstd::seq_lib::{lemma_multiset_commutative, to_multiset_contains};

verus! {

broadcast use vstd::seq_lib::group_to_multiset_ensures, vstd::multiset::group_multiset_axioms;

/// Each element is at most every later one.
pub open spec fn is_sorted(s: Seq<i32>) -> bool {
    forall|i: int, j: int| 0 <= i <= j < s.len() ==> s[i] <= s[j]
}

/// A property of every element carries over to a permutation.
proof fn lemma_all_carry_over(s: Seq<i32>, t: Seq<i32>, p: spec_fn(i32) -> bool)
    requires
        s.to_multiset() == t.to_multiset(),
        forall|i: int| 0 <= i < s.len() ==> p(#[trigger] s[i]),
    ensures
        forall|i: int| 0 <= i < t.len() ==> p(#[trigger] t[i]),
{
    assert forall|i: int| 0 <= i < t.len() implies p(#[trigger] t[i]) by {
        let x = t[i];
        to_multiset_contains(t, x);
        to_multiset_contains(s, x);
        assert(t.contains(x));
        let j = choose|j: int| 0 <= j < s.len() && s[j] == x;
        assert(p(s[j]));
    }
}

/// Exchanges the elements at `i` and `j`.
fn swap(slice: &mut [i32], i: usize, j: usize)
    requires
        i < old(slice)@.len(),
        j < old(slice)@.len(),
    ensures
        final(slice)@ == old(slice)@.update(i as int, old(slice)@[j as int]).update(
            j as int,
            old(slice)@[i as int],
        ),
        final(slice)@.to_multiset() == old(slice)@.to_multiset(),
{
    let a = slice[i];
    let b = slice[j];
    slice[i] = b;
    slice[j] = a;
    proof {
        let s = old(slice)@;
        let s1 = s.update(i as int, b);
        assert(s1[j as int] == b);
        assert(s.to_multiset().insert(b).remove(a).insert(a).remove(b) =~= s.to_multiset());
    }
}

/// Sorts `slice` in place: the result is sorted and holds the same elements.
/// The middle element is the pivot; the elements below it are gathered at
/// the front, and both sides are then sorted in turn.
pub fn quicksort(slice: &mut [i32])
    ensures
        is_sorted(final(slice)@),
        final(slice)@.to_multiset() == old(slice)@.to_multiset(),
    decreases old(slice)@.len(),
{
    let len = slice.len();
    if len <= 1 {
        return;
    }
    if len == 2 {
        if slice[0] > slice[1] {
            swap(slice, 0, 1);
        }
        return;
    }
    let mut pivot = len / 2;
    let pivot_val = slice[pivot];
    swap(slice, pivot, len - 1);
    pivot = 0;
    let mut i: usize = 0;
    while i < len - 1
        invariant
            len == slice@.len(),
            len >= 3,
            pivot <= i <= len - 1,
            slice@[len - 1] == pivot_val,
            forall|k: int| 0 <= k < pivot ==> slice@[k] < pivot_val,
            forall|k: int| pivot <= k < i ==> slice@[k] >= pivot_val,
            slice@.to_multiset() == old(slice)@.to_multiset(),
        decreases len - 1 - i,
    {
        if slice[i] < pivot_val {
            swap(slice, pivot, i);
            pivot += 1;
        }
        i += 1;
    }
    swap(slice, pivot, len - 1);
    let ghost s = slice@;
    let ghost low = s.subrange(0, pivot as int);
    let ghost high = s.subrange(pivot + 1, len as int);
    assert(forall|k: int| 0 <= k < low.len() ==> low[k] < pivot_val);
    assert(forall|k: int| 0 <= k < high.len() ==> high[k] >= pivot_val);
    assert(s =~= low + seq![pivot_val] + high);
    assert(s.to_multiset() == old(slice)@.to_multiset());
    let (left, rest) = slice.split_at_mut(pivot);
    quicksort(left);
    let (mid, right) = rest.split_at_mut(1);
    assert(right@ =~= high);
    quicksort(right);
    proof {
        let l = final(left)@;
        let r = final(right)@;
        assert(mid@ =~= seq![pivot_val]);
        lemma_all_carry_over(low, l, |x: i32| x < pivot_val);
        lemma_all_carry_over(high, r, |x: i32| x >= pivot_val);
        lemma_multiset_commutative(low, seq![pivot_val]);
        lemma_multiset_commutative(low + seq![pivot_val], high);
        lemma_multiset_commutative(l, seq![pivot_val]);
        lemma_multiset_commutative(l + seq![pivot_val], r);
        assert(final(slice)@ =~= l + seq![pivot_val] + r);
    }
}

} // verus!

//! The partition step: one pivot is put in its final place, with everything
//! that was answered `Less` or `Equal` against it before it and everything
//! that was answered `Greater` after it.
//!
//! The contracts speak of what the comparator answered, not of an order:
//! they hold of every comparator, also of one that contradicts itself.

use crate::comparator::answers_above;
use crate::comparator::answers_not_above;
use crate::comparator::comparable;
use crate::comparator::lemma_comparable_on_drawn;
use crate::relation::lemma_permutation_same_elements;
use crate::relation::lemma_swapped_is_permutation;
use crate::relation::permutation_of;
use crate::relation::swapped;
use std::cmp::Ordering;
use vstd::prelude::*;

verus! {

/// The element that a partition takes as its pivot: the middle one.
pub open spec fn middle<T>(s: Seq<T>) -> T {
    s[s.len() as int / 2]
}

/// Exchanges the elements at positions `a` and `b` of `v`; with `a == b`
/// nothing changes.
pub fn exchange<T>(v: &mut [T], a: usize, b: usize)
    requires
        a < old(v)@.len(),
        b < old(v)@.len(),
    ensures
        final(v)@ == swapped(old(v)@, a as int, b as int),
        final(v)@.len() == old(v)@.len(),
        permutation_of(final(v)@, old(v)@),
{
    proof {
        lemma_swapped_is_permutation(v@, a as int, b as int);
    }
    if a != b {
        let lo: usize = if a < b { a } else { b };
        let hi: usize = if a < b { b } else { a };
        let (front, back) = v.split_at_mut(hi);
        core::mem::swap(&mut front[lo], &mut back[0]);
    }
    assert(v@ =~= swapped(old(v)@, a as int, b as int));
}

/// Asks the comparator once whether `a` is above `b`: the result is `true`
/// where it answered `Greater`, `false` where it answered `Less` or `Equal`.
pub fn is_above<T, F>(cmp: &F, a: &T, b: &T) -> (above: bool) where F: Fn(&T, &T) -> Ordering
    requires
        cmp.requires((a, b)),
    ensures
        above ==> answers_above(cmp, *a, *b),
        !above ==> answers_not_above(cmp, *a, *b),
{
    match cmp(a, b) {
        Ordering::Greater => true,
        _ => false,
    }
}

/// Takes the middle element of `vec` as pivot and rearranges `vec` around
/// it. Returns the position `p` where the pivot comes to rest.
///
/// Afterwards `vec` holds the same elements as before. Each element before
/// `p` was answered `Less` or `Equal` when compared with the pivot, and each
/// element after `p` was answered `Greater`. Elements that compare `Equal`
/// to the pivot therefore end up before it.
///
/// Two cursors walk towards each other from the two ends. The left one
/// passes what is not above the pivot, the right one what is above it, and
/// where both have stopped the two elements are exchanged. The pivot waits
/// at position 0 meanwhile and is never compared with itself.
pub fn partition<T, F>(vec: &mut [T], cmp: &F) -> (p: usize) where F: Fn(&T, &T) -> Ordering
    requires
        old(vec)@.len() >= 1,
        comparable(cmp, old(vec)@),
    ensures
        p < old(vec)@.len(),
        final(vec)@.len() == old(vec)@.len(),
        permutation_of(final(vec)@, old(vec)@),
        forall|k: int|
            0 <= k < old(vec)@.len() ==> if k < p {
                answers_not_above(cmp, #[trigger] final(vec)@[k], middle(old(vec)@))
            } else if k == p {
                final(vec)@[k] == middle(old(vec)@)
            } else {
                answers_above(cmp, final(vec)@[k], middle(old(vec)@))
            },
{
    let len: usize = vec.len();
    let ghost start = vec@;
    let ghost pivot = middle(start);
    exchange(vec, 0, len / 2);
    proof {
        lemma_permutation_same_elements(vec@, start);
        lemma_comparable_on_drawn(cmp, start, vec@);
    }
    let mut left: usize = 1;
    let mut right: usize = len - 1;
    loop
        invariant_except_break
            left <= right + 1,
        invariant
            len == vec@.len(),
            1 <= left,
            right < len,
            vec@[0] == pivot,
            permutation_of(vec@, start),
            comparable(cmp, vec@),
            forall|k: int| 1 <= k < left ==> answers_not_above(cmp, #[trigger] vec@[k], pivot),
            forall|k: int| right < k < len ==> answers_above(cmp, #[trigger] vec@[k], pivot),
        ensures
            forall|k: int| 1 <= k <= right ==> answers_not_above(cmp, #[trigger] vec@[k], pivot),
        decreases right + 1 - left,
    {
        let ghost left_before: usize = left;
        let ghost right_before: usize = right;
        while left < len && !is_above(cmp, &vec[left], &vec[0])
            invariant
                len == vec@.len(),
                1 <= left_before <= left <= len,
                vec@[0] == pivot,
                comparable(cmp, vec@),
                forall|k: int| 1 <= k < left ==> answers_not_above(cmp, #[trigger] vec@[k], pivot),
            decreases len - left,
        {
            left += 1;
        }
        while right > 0 && is_above(cmp, &vec[right], &vec[0])
            invariant
                len == vec@.len(),
                right <= right_before < len,
                vec@[0] == pivot,
                comparable(cmp, vec@),
                forall|k: int| right < k < len ==> answers_above(cmp, #[trigger] vec@[k], pivot),
            decreases right,
        {
            right -= 1;
        }
        if left >= right {
            break;
        }
        // `vec[left]` is above the pivot and `vec[right]` is not: after the
        // exchange both are on their side, and the cursors move past them.
        let ghost before = vec@;
        exchange(vec, left, right);
        proof {
            lemma_permutation_same_elements(vec@, before);
            lemma_comparable_on_drawn(cmp, before, vec@);
        }
        left += 1;
        right -= 1;
    }
    // Everything up to `right` is not above the pivot, so the pivot can
    // change places with the last of them.
    exchange(vec, 0, right);
    right
}

} // verus!

//! In-place quicksort of a slice, by the natural order of its elements or by
//! a comparator of the caller.
//!
//! Both entry points leave a permutation of what they were given, whatever
//! the comparator does. The result is also sorted, in every order that the
//! comparator decides and that is a total preorder on the elements.

use std::cmp::Ordering;
use vstd::prelude::*;
use vstd::relations::sorted_by;
use vstd::std_specs::cmp::OrdSpec;

pub mod comparator;
pub mod partition;
pub mod relation;

use crate::comparator::all_above;
use crate::comparator::all_not_above;
use crate::comparator::answers_above;
use crate::comparator::answers_not_above;
use crate::comparator::comparable;
use crate::comparator::decides;
use crate::comparator::lemma_comparable_on_drawn;
use crate::comparator::lemma_decided_order_is_never_above;
use crate::comparator::lemma_decides_on_drawn;
use crate::comparator::lemma_runs_around_pivot;
use crate::comparator::natural_leq;
use crate::comparator::natural_order_distinguishes;
use crate::comparator::natural_order_on;
use crate::comparator::never_above;
use crate::comparator::strict_weak_ordering_on;
use crate::partition::middle;
use crate::partition::partition;
use crate::relation::antisymmetric_on;
use crate::relation::lemma_laws_on_drawn;
use crate::relation::lemma_parts_drawn_from_whole;
use crate::relation::lemma_permutation_same_elements;
use crate::relation::lemma_permuted_ends;
use crate::relation::lemma_sorted_around_pivot;
use crate::relation::lemma_sorted_has_neighbours_in_order;
use crate::relation::lemma_sorted_permutation_is_unique;
use crate::relation::neighbours_in_order;
use crate::relation::permutation_of;
use crate::relation::total_preorder_on;

verus! {

/// Sorts `vec` in place by the comparator `cmp`.
///
/// `cmp` is only ever asked about two elements of `vec`, and must accept any
/// two of them. Nothing else is required of it, and whatever it answers,
/// `vec` ends up holding the elements it held before, each as often as
/// before; a slice of at most one element is left as it is.
///
/// What more can be said depends on the comparator. Take any relation `leq`
/// that `cmp` decides on the elements of `vec` (it answers `Greater` for `a`
/// and `b` exactly when `leq(a, b)` is false) and that is total and
/// transitive on them. Then the result is sorted by `leq`: `leq` holds
/// between the elements at any two positions `i < j`. So where `cmp` is a
/// strict weak ordering on the elements, it never answers `Greater` for an
/// element of the result and a later one, the one that follows it included.
///
/// Equal elements may change places. Only where `leq` tells all elements
/// apart is a slice that was sorted already left exactly as it was.
///
/// A comparator that is not a strict weak ordering is not detected: the
/// elements are then still all there, in some order.
///
/// ```
/// let mut numbers: Vec<u64> = vec![3, 1, 4, 1, 5, 9, 2, 6, 5, 3];
/// ironsort::quicksort_by(&mut numbers, &|x, y| y.cmp(x));
/// assert_eq!(numbers, [9, 6, 5, 5, 4, 3, 3, 2, 1, 1]);
/// ```
pub fn quicksort_by<T: PartialOrd, F>(vec: &mut [T], cmp: &F) where F: Fn(&T, &T) -> Ordering
    requires
        comparable(cmp, old(vec)@),
    ensures
        final(vec)@.len() == old(vec)@.len(),
        permutation_of(final(vec)@, old(vec)@),
        old(vec)@.len() <= 1 ==> final(vec)@ == old(vec)@,
        forall|leq: spec_fn(T, T) -> bool|
            #[trigger] decides(cmp, leq, old(vec)@) && total_preorder_on(leq, old(vec)@)
                ==> sorted_by(final(vec)@, leq),
        strict_weak_ordering_on(cmp, old(vec)@) ==> sorted_by(final(vec)@, never_above(cmp))
            && neighbours_in_order(final(vec)@, never_above(cmp)),
        forall|leq: spec_fn(T, T) -> bool|
            #[trigger] decides(cmp, leq, old(vec)@) && total_preorder_on(leq, old(vec)@)
                && antisymmetric_on(leq, old(vec)@) && sorted_by(old(vec)@, leq) ==> final(vec)@
                == old(vec)@,
    decreases old(vec)@.len(),
{
    let len: usize = vec.len();
    if len <= 1 {
        return;
    }
    let ghost start = vec@;
    let ghost pivot = middle(start);
    let p: usize = partition(vec, cmp);
    let ghost parted = vec@;
    // The pivot stays where it is; what lies before and after it is sorted
    // on its own.
    let (front, rest) = vec.split_at_mut(p);
    let (_, back) = rest.split_at_mut(1);
    let ghost low = front@;
    let ghost high = back@;
    proof {
        assert(parted =~= low + (seq![pivot] + high));
        lemma_permutation_same_elements(parted, start);
        lemma_parts_drawn_from_whole(low, pivot, high);
        lemma_comparable_on_drawn(cmp, start, low);
        lemma_comparable_on_drawn(cmp, start, high);
    }
    quicksort_by(front, cmp);
    quicksort_by(back, cmp);
    let ghost low_sorted = front@;
    let ghost high_sorted = back@;
    proof {
        let result = low_sorted + (seq![pivot] + high_sorted);
        assert(vec@ == result);
        lemma_permuted_ends(low, seq![pivot], high, low_sorted, high_sorted);
        assert forall|leq: spec_fn(T, T) -> bool|
            #[trigger] decides(cmp, leq, start) && total_preorder_on(leq, start) implies sorted_by(
            result,
            leq,
        ) by {
            lemma_decides_on_drawn(cmp, leq, start, low);
            lemma_decides_on_drawn(cmp, leq, start, high);
            lemma_laws_on_drawn(leq, start, low);
            lemma_laws_on_drawn(leq, start, high);
            assert(sorted_by(low_sorted, leq));
            assert(sorted_by(high_sorted, leq));
            lemma_permutation_same_elements(low_sorted, low);
            lemma_permutation_same_elements(high_sorted, high);
            assert(all_not_above(cmp, low_sorted, pivot)) by {
                assert forall|x: T| low.contains(x) implies answers_not_above(cmp, x, pivot) by {
                    let i = choose|i: int| 0 <= i < low.len() && low[i] == x;
                    assert(parted[i] == x);
                }
            }
            assert(all_above(cmp, high_sorted, pivot)) by {
                assert forall|x: T| high.contains(x) implies answers_above(cmp, x, pivot) by {
                    let i = choose|i: int| 0 <= i < high.len() && high[i] == x;
                    assert(parted[low.len() + 1 + i] == x);
                }
            }
            lemma_runs_around_pivot(cmp, leq, start, low_sorted, pivot, high_sorted);
            lemma_permutation_same_elements(result, start);
            lemma_laws_on_drawn(leq, start, result);
            lemma_sorted_around_pivot(leq, low_sorted, pivot, high_sorted);
        }
        if strict_weak_ordering_on(cmp, start) {
            let leq = choose|leq: spec_fn(T, T) -> bool| #[trigger]
                decides(cmp, leq, start) && total_preorder_on(leq, start);
            lemma_permutation_same_elements(result, start);
            lemma_decided_order_is_never_above(cmp, leq, start, result);
            lemma_sorted_has_neighbours_in_order(result, never_above(cmp));
        }
        assert forall|leq: spec_fn(T, T) -> bool|
            #[trigger] decides(cmp, leq, start) && total_preorder_on(leq, start)
                && antisymmetric_on(leq, start) && sorted_by(start, leq) implies result
            == start by {
            lemma_sorted_permutation_is_unique(leq, result, start);
        }
    }
}

/// Sorts `vec` in place by the natural order of its elements.
///
/// `vec` ends up holding the elements it held before, each as often as
/// before. Where `T::cmp` returns what `cmp_spec` says and the natural order
/// is total and transitive on the elements (as it is for the integers and
/// for every type that keeps the laws of `Ord`), the result is in
/// non-decreasing order: no element is greater than one at a later position.
/// A slice that was in that order already is left exactly as it was where
/// values that compare `Equal` are the same value.
///
/// ```
/// let mut numbers: Vec<u64> = vec![3, 1, 4, 1, 5, 9, 2, 6, 5, 3];
/// ironsort::quicksort(&mut numbers);
/// assert_eq!(numbers, [1, 1, 2, 3, 3, 4, 5, 5, 6, 9]);
/// ```
#[inline]
pub fn quicksort<T: Ord>(vec: &mut [T])
    ensures
        final(vec)@.len() == old(vec)@.len(),
        permutation_of(final(vec)@, old(vec)@),
        old(vec)@.len() <= 1 ==> final(vec)@ == old(vec)@,
        natural_order_on::<T>(old(vec)@) ==> sorted_by(final(vec)@, natural_leq::<T>())
            && neighbours_in_order(final(vec)@, natural_leq::<T>()),
        natural_order_on::<T>(old(vec)@) && natural_order_distinguishes::<T>(old(vec)@)
            && sorted_by(old(vec)@, natural_leq::<T>()) ==> final(vec)@ == old(vec)@,
{
    let ghost start = vec@;
    let by_natural_order = |x: &T, y: &T| -> (o: Ordering)
        ensures
            T::obeys_cmp_spec() ==> o == x.cmp_spec(y),
        { x.cmp(y) };
    quicksort_by(vec, &by_natural_order);
    proof {
        if natural_order_on::<T>(start) {
            assert(decides(&by_natural_order, natural_leq::<T>(), start));
            lemma_sorted_has_neighbours_in_order(vec@, natural_leq::<T>());
        }
    }
}

} // verus!

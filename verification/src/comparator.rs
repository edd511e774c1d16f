//! What is asked of a comparator, and how its answers relate to an order.
//!
//! A comparator is any `Fn(&T, &T) -> Ordering`. In a contract it is a
//! relation between arguments and possible answers, not a function: nothing
//! says that it answers the same way twice. The predicates here therefore
//! speak of the answers it *may* give, and an order relation `leq` is tied to
//! a comparator by saying that every answer it may give agrees with `leq`.

use crate::relation::antisymmetric_on;
use crate::relation::drawn_from;
use crate::relation::total_preorder_on;
use std::cmp::Ordering;
use vstd::laws_cmp::obeys_cmp;
use vstd::laws_cmp::obeys_cmp_ord;
use vstd::laws_cmp::obeys_cmp_partial_ord;
use vstd::laws_cmp::obeys_partial_cmp_spec_properties;
use vstd::laws_eq::obeys_concrete_eq;
use vstd::laws_eq::obeys_eq_spec_properties;
use vstd::prelude::*;
use vstd::relations::sorted_by;
use vstd::std_specs::cmp::OrdSpec;
use vstd::std_specs::cmp::PartialEqSpec;
use vstd::std_specs::cmp::PartialOrdSpec;

verus! {

/// `cmp` may be called on any two elements of `s`, in either order.
pub open spec fn comparable<T, F>(cmp: &F, s: Seq<T>) -> bool where F: Fn(&T, &T) -> Ordering {
    forall|a: T, b: T| s.contains(a) && s.contains(b) ==> #[trigger] cmp.requires((&a, &b))
}

/// `cmp(a, b)` may answer `Greater`.
pub open spec fn answers_above<T, F>(cmp: &F, a: T, b: T) -> bool where F: Fn(&T, &T) -> Ordering {
    cmp.ensures((&a, &b), Ordering::Greater)
}

/// `cmp(a, b)` may answer `Less` or `Equal`.
pub open spec fn answers_not_above<T, F>(cmp: &F, a: T, b: T) -> bool where
    F: Fn(&T, &T) -> Ordering,
{
    cmp.ensures((&a, &b), Ordering::Less) || cmp.ensures((&a, &b), Ordering::Equal)
}

/// On the elements of `s`, `cmp` decides `leq`: whatever it may answer about
/// `a` and `b`, the answer is `Greater` exactly when `leq(a, b)` is false.
pub open spec fn decides<T, F>(cmp: &F, leq: spec_fn(T, T) -> bool, s: Seq<T>) -> bool where
    F: Fn(&T, &T) -> Ordering,
{
    forall|a: T, b: T, o: Ordering|
        s.contains(a) && s.contains(b) && #[trigger] cmp.ensures((&a, &b), o) ==> (leq(a, b)
            <==> o != Ordering::Greater)
}

/// The relation "`cmp(a, b)` never answers `Greater`".
pub open spec fn never_above<T, F>(cmp: &F) -> spec_fn(T, T) -> bool where
    F: Fn(&T, &T) -> Ordering,
{
    |a: T, b: T| !answers_above(cmp, a, b)
}

/// On the elements of `s`, `cmp` is a strict weak ordering: there is a total
/// and transitive relation that it decides. Its `Greater` answers are then
/// the pairs outside that relation.
pub open spec fn strict_weak_ordering_on<T, F>(cmp: &F, s: Seq<T>) -> bool where
    F: Fn(&T, &T) -> Ordering,
{
    exists|leq: spec_fn(T, T) -> bool| #[trigger]
        decides(cmp, leq, s) && total_preorder_on(leq, s)
}

/// The relation "`a` is not greater than `b`" of the natural order of `T`.
pub open spec fn natural_leq<T: Ord>() -> spec_fn(T, T) -> bool {
    |a: T, b: T| a.cmp_spec(&b) != Ordering::Greater
}

/// `T::cmp` returns what `cmp_spec` says, and on the elements of `s` the
/// natural order is a total preorder.
pub open spec fn natural_order_on<T: Ord>(s: Seq<T>) -> bool {
    T::obeys_cmp_spec() && total_preorder_on(natural_leq::<T>(), s)
}

/// On the elements of `s`, values that compare `Equal` are the same value.
pub open spec fn natural_order_distinguishes<T: Ord>(s: Seq<T>) -> bool {
    antisymmetric_on(natural_leq::<T>(), s)
}

/// A type whose `Ord` keeps the laws that `vstd` asks of it has a natural
/// order that is a total preorder, on the elements of any sequence.
pub proof fn lemma_lawful_ord_is_natural_order<T: Ord>(s: Seq<T>)
    requires
        obeys_cmp::<T>(),
    ensures
        natural_order_on::<T>(s),
{
    reveal(obeys_eq_spec_properties);
    reveal(obeys_partial_cmp_spec_properties);
    reveal(obeys_cmp_partial_ord);
    reveal(obeys_cmp_ord);
    let leq = natural_leq::<T>();
    assert forall|a: T, b: T| #![trigger leq(a, b)] leq(a, b) || leq(b, a) by {
        if a.cmp_spec(&b) == Ordering::Greater {
            assert(b.partial_cmp_spec(&a) == Some(Ordering::Less));
        }
    }
    assert forall|a: T, b: T, c: T|
        #![trigger leq(a, b), leq(b, c)]
        leq(a, b) && leq(b, c) implies leq(a, c) by {
        if a.cmp_spec(&c) == Ordering::Greater {
            assert(c.partial_cmp_spec(&a) == Some(Ordering::Less));
            if a.cmp_spec(&b) == Ordering::Less {
                assert(a.partial_cmp_spec(&b) == Some(Ordering::Less));
                assert(c.partial_cmp_spec(&b) == Some(Ordering::Less));
                assert(!c.eq_spec(&b));
                assert(!b.eq_spec(&c));
                assert(b.partial_cmp_spec(&c) == Some(Ordering::Less));
                assert(a.partial_cmp_spec(&c) == Some(Ordering::Less));
            } else {
                assert(a.eq_spec(&b));
                assert(b.eq_spec(&a));
                if b.cmp_spec(&c) == Ordering::Less {
                    assert(b.partial_cmp_spec(&c) == Some(Ordering::Less));
                    assert(b.partial_cmp_spec(&a) == Some(Ordering::Less));
                } else {
                    assert(b.eq_spec(&c));
                    assert(a.eq_spec(&c));
                }
            }
        }
    }
}

/// Where, in addition, `==` of the type is equality of values, values that
/// compare `Equal` are the same value.
pub proof fn lemma_lawful_ord_distinguishes<T: Ord>(s: Seq<T>)
    requires
        obeys_cmp::<T>(),
        obeys_concrete_eq::<T>(),
    ensures
        natural_order_distinguishes::<T>(s),
{
    reveal(obeys_partial_cmp_spec_properties);
    reveal(obeys_cmp_partial_ord);
    reveal(obeys_cmp_ord);
    reveal(obeys_concrete_eq);
    let leq = natural_leq::<T>();
    assert forall|a: T, b: T| #![trigger leq(a, b), leq(b, a)] leq(a, b) && leq(b, a) implies a
        == b by {
        if a.cmp_spec(&b) == Ordering::Less {
            assert(a.partial_cmp_spec(&b) == Some(Ordering::Less));
            assert(b.partial_cmp_spec(&a) == Some(Ordering::Greater));
        } else {
            assert(a.partial_cmp_spec(&b) == Some(Ordering::Equal));
            assert(a.eq_spec(&b));
        }
    }
}

/// Every element of `run` may be answered `Less` or `Equal` against `pivot`.
pub open spec fn all_not_above<T, F>(cmp: &F, run: Seq<T>, pivot: T) -> bool where
    F: Fn(&T, &T) -> Ordering,
{
    forall|x: T| run.contains(x) ==> answers_not_above(cmp, x, pivot)
}

/// Every element of `run` may be answered `Greater` against `pivot`.
pub open spec fn all_above<T, F>(cmp: &F, run: Seq<T>, pivot: T) -> bool where
    F: Fn(&T, &T) -> Ordering,
{
    forall|x: T| run.contains(x) ==> answers_above(cmp, x, pivot)
}

/// A comparator that may be called on the elements of `s` may be called on
/// the elements of any `t` drawn from `s`.
pub proof fn lemma_comparable_on_drawn<T, F>(cmp: &F, s: Seq<T>, t: Seq<T>) where
    F: Fn(&T, &T) -> Ordering,
    requires
        comparable(cmp, s),
        drawn_from(t, s),
    ensures
        comparable(cmp, t),
{
}

/// What a comparator decides on the elements of `s`, it decides on the
/// elements of any `t` drawn from `s`.
pub proof fn lemma_decides_on_drawn<T, F>(
    cmp: &F,
    leq: spec_fn(T, T) -> bool,
    s: Seq<T>,
    t: Seq<T>,
) where F: Fn(&T, &T) -> Ordering
    requires
        decides(cmp, leq, s),
        drawn_from(t, s),
    ensures
        decides(cmp, leq, t),
{
}

/// A comparator never answers `Greater` for two elements that are in the
/// order which it decides.
pub proof fn lemma_decided_order_is_never_above<T, F>(
    cmp: &F,
    leq: spec_fn(T, T) -> bool,
    s: Seq<T>,
    t: Seq<T>,
) where F: Fn(&T, &T) -> Ordering
    requires
        decides(cmp, leq, s),
        drawn_from(t, s),
        sorted_by(t, leq),
    ensures
        sorted_by(t, never_above(cmp)),
{
    let rel = never_above(cmp);
    assert forall|i: int, j: int| 0 <= i < j < t.len() implies #[trigger] rel(t[i], t[j]) by {
        assert(t.contains(t[i]) && t.contains(t[j]));
        assert(leq(t[i], t[j]));
    }
}

/// What the comparator answered against the pivot, read in an order that it
/// decides: a run answered `Less` or `Equal` lies below the pivot, a run
/// answered `Greater` lies above it.
pub proof fn lemma_runs_around_pivot<T, F>(
    cmp: &F,
    leq: spec_fn(T, T) -> bool,
    s: Seq<T>,
    low: Seq<T>,
    pivot: T,
    high: Seq<T>,
) where F: Fn(&T, &T) -> Ordering
    requires
        decides(cmp, leq, s),
        total_preorder_on(leq, s),
        drawn_from(low, s),
        drawn_from(high, s),
        s.contains(pivot),
        all_not_above(cmp, low, pivot),
        all_above(cmp, high, pivot),
    ensures
        forall|i: int| 0 <= i < low.len() ==> leq(#[trigger] low[i], pivot),
        forall|j: int| 0 <= j < high.len() ==> leq(pivot, #[trigger] high[j]),
{
    assert forall|i: int| 0 <= i < low.len() implies leq(#[trigger] low[i], pivot) by {
        assert(low.contains(low[i]));
        assert(answers_not_above(cmp, low[i], pivot));
    }
    assert forall|j: int| 0 <= j < high.len() implies leq(pivot, #[trigger] high[j]) by {
        assert(high.contains(high[j]));
        assert(answers_above(cmp, high[j], pivot));
        assert(!leq(high[j], pivot));
    }
}

} // verus!

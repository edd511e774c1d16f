//! Order relations restricted to the elements of a sequence, permutations,
//! and what being sorted means with respect to both.
//!
//! A relation is a `spec_fn(T, T) -> bool`, read as "is not above". Its laws
//! are asked only of the values that occur in a given sequence, so that a
//! relation which misbehaves elsewhere in `T` can still be used. That a
//! sequence is sorted by a relation is `vstd::relations::sorted_by`: the
//! relation holds between the elements at any two positions `i < j`.

use vstd::prelude::*;
use vstd::relations::sorted_by;
use vstd::seq_lib::group_to_multiset_ensures;
use vstd::seq_lib::lemma_multiset_commutative;

verus! {

/// `a` and `b` hold the same elements with the same multiplicities.
pub open spec fn permutation_of<T>(a: Seq<T>, b: Seq<T>) -> bool {
    a.to_multiset() == b.to_multiset()
}

/// Every element of `t` also occurs in `s`.
pub open spec fn drawn_from<T>(t: Seq<T>, s: Seq<T>) -> bool {
    forall|x: T| t.contains(x) ==> s.contains(x)
}

/// `s` with the elements at positions `a` and `b` exchanged.
pub open spec fn swapped<T>(s: Seq<T>, a: int, b: int) -> Seq<T> {
    s.update(a, s[b]).update(b, s[a])
}

/// On the elements of `s`, any two are related one way or the other.
pub open spec fn total_on<T>(leq: spec_fn(T, T) -> bool, s: Seq<T>) -> bool {
    forall|a: T, b: T|
        #![trigger leq(a, b)]
        s.contains(a) && s.contains(b) ==> leq(a, b) || leq(b, a)
}

/// On the elements of `s`, `leq` is transitive.
pub open spec fn transitive_on<T>(leq: spec_fn(T, T) -> bool, s: Seq<T>) -> bool {
    forall|a: T, b: T, c: T|
        #![trigger leq(a, b), leq(b, c)]
        s.contains(a) && s.contains(b) && s.contains(c) && leq(a, b) && leq(b, c) ==> leq(a, c)
}

/// On the elements of `s`, `leq` is a total preorder: the order in which a
/// strict weak ordering leaves its elements once "above" is negated.
pub open spec fn total_preorder_on<T>(leq: spec_fn(T, T) -> bool, s: Seq<T>) -> bool {
    total_on(leq, s) && transitive_on(leq, s)
}

/// On the elements of `s`, two elements related both ways are the same value.
pub open spec fn antisymmetric_on<T>(leq: spec_fn(T, T) -> bool, s: Seq<T>) -> bool {
    forall|a: T, b: T|
        #![trigger leq(a, b), leq(b, a)]
        s.contains(a) && s.contains(b) && leq(a, b) && leq(b, a) ==> a == b
}

/// `leq` holds between every element of `s` and the one that follows it.
pub open spec fn neighbours_in_order<T>(s: Seq<T>, leq: spec_fn(T, T) -> bool) -> bool {
    forall|i: int, j: int| 0 <= i && j == i + 1 && j < s.len() ==> #[trigger] leq(s[i], s[j])
}

/// Exchanging two elements gives a permutation.
pub proof fn lemma_swapped_is_permutation<T>(s: Seq<T>, a: int, b: int)
    requires
        0 <= a < s.len(),
        0 <= b < s.len(),
    ensures
        permutation_of(swapped(s, a, b), s),
        swapped(s, a, b).len() == s.len(),
{
    broadcast use group_to_multiset_ensures;

    let half = s.update(a, s[b]);
    assert(half.to_multiset() == s.to_multiset().insert(s[b]).remove(s[a]));
    assert(swapped(s, a, b).to_multiset() == half.to_multiset().insert(s[a]).remove(half[b]));
    assert(s.to_multiset().count(s[a]) > 0);
    assert(s.to_multiset().count(s[b]) > 0);
    assert(swapped(s, a, b).to_multiset() =~= s.to_multiset());
}

/// Permutations have the same length and the same elements.
pub proof fn lemma_permutation_same_elements<T>(a: Seq<T>, b: Seq<T>)
    requires
        permutation_of(a, b),
    ensures
        a.len() == b.len(),
        drawn_from(a, b),
        drawn_from(b, a),
{
    broadcast use group_to_multiset_ensures;

    assert(a.len() == a.to_multiset().len() && b.len() == b.to_multiset().len());
    assert forall|x: T| a.contains(x) == b.contains(x) by {
        assert(a.contains(x) <==> a.to_multiset().count(x) > 0);
        assert(b.contains(x) <==> b.to_multiset().count(x) > 0);
    }
}

/// The laws asked of the elements of `s` hold of the elements of any `t`
/// drawn from `s`.
pub proof fn lemma_laws_on_drawn<T>(leq: spec_fn(T, T) -> bool, s: Seq<T>, t: Seq<T>)
    requires
        drawn_from(t, s),
    ensures
        total_on(leq, s) ==> total_on(leq, t),
        transitive_on(leq, s) ==> transitive_on(leq, t),
        total_preorder_on(leq, s) ==> total_preorder_on(leq, t),
        antisymmetric_on(leq, s) ==> antisymmetric_on(leq, t),
{
}

/// Joining two sequences joins their multisets.
pub proof fn lemma_concat_multiset<T>(a: Seq<T>, b: Seq<T>)
    ensures
        (a + b).to_multiset() == a.to_multiset().add(b.to_multiset()),
{
    lemma_multiset_commutative(a, b);
}

/// Replacing the two ends of `low + mid + high` by permutations of
/// themselves gives a permutation of the whole.
pub proof fn lemma_permuted_ends<T>(
    low: Seq<T>,
    mid: Seq<T>,
    high: Seq<T>,
    low2: Seq<T>,
    high2: Seq<T>,
)
    requires
        permutation_of(low2, low),
        permutation_of(high2, high),
    ensures
        permutation_of(low2 + (mid + high2), low + (mid + high)),
{
    lemma_concat_multiset(mid, high);
    lemma_concat_multiset(mid, high2);
    lemma_concat_multiset(low, mid + high);
    lemma_concat_multiset(low2, mid + high2);
}

/// Each part of `low + [pivot] + high` is drawn from the whole.
pub proof fn lemma_parts_drawn_from_whole<T>(low: Seq<T>, pivot: T, high: Seq<T>)
    ensures
        drawn_from(low, low + (seq![pivot] + high)),
        drawn_from(high, low + (seq![pivot] + high)),
        (low + (seq![pivot] + high)).contains(pivot),
{
    let whole = low + (seq![pivot] + high);
    let p = low.len() as int;
    assert forall|x: T| low.contains(x) implies whole.contains(x) by {
        let i = choose|i: int| 0 <= i < low.len() && low[i] == x;
        assert(whole[i] == x);
    }
    assert forall|x: T| high.contains(x) implies whole.contains(x) by {
        let j = choose|j: int| 0 <= j < high.len() && high[j] == x;
        assert(whole[p + 1 + j] == x);
    }
    assert(whole[p] == pivot);
}

/// A sorted run below a pivot, the pivot, and a sorted run above it make a
/// sorted sequence.
pub proof fn lemma_sorted_around_pivot<T>(
    leq: spec_fn(T, T) -> bool,
    low: Seq<T>,
    pivot: T,
    high: Seq<T>,
)
    requires
        sorted_by(low, leq),
        sorted_by(high, leq),
        forall|i: int| 0 <= i < low.len() ==> leq(#[trigger] low[i], pivot),
        forall|j: int| 0 <= j < high.len() ==> leq(pivot, #[trigger] high[j]),
        transitive_on(leq, low + (seq![pivot] + high)),
    ensures
        sorted_by(low + (seq![pivot] + high), leq),
{
    let whole = low + (seq![pivot] + high);
    assert forall|i: int, j: int| 0 <= i < j < whole.len() implies #[trigger] leq(
        whole[i],
        whole[j],
    ) by {
        let p = low.len() as int;
        assert(whole[p] == pivot);
        assert(whole.contains(whole[i]));
        assert(whole.contains(whole[j]));
        assert(whole.contains(whole[p]));
        if j < p {
            assert(whole[i] == low[i] && whole[j] == low[j]);
        } else if i > p {
            assert(whole[i] == high[i - p - 1] && whole[j] == high[j - p - 1]);
        } else if i == p {
            assert(whole[j] == high[j - p - 1]);
        } else if j == p {
            assert(whole[i] == low[i]);
        } else {
            assert(whole[i] == low[i]);
            assert(whole[j] == high[j - p - 1]);
            assert(leq(whole[i], pivot) && leq(pivot, whole[j]));
        }
    }
}

/// In a sorted sequence every element and the one that follows it are in order.
pub proof fn lemma_sorted_has_neighbours_in_order<T>(s: Seq<T>, leq: spec_fn(T, T) -> bool)
    requires
        sorted_by(s, leq),
    ensures
        neighbours_in_order(s, leq),
{
}

/// Where `leq` is transitive on the elements of `s`, it is enough to look at
/// neighbours: `leq` then holds between the elements at any two positions
/// `i < j`.
pub proof fn lemma_neighbours_in_order_reach<T>(
    s: Seq<T>,
    leq: spec_fn(T, T) -> bool,
    i: int,
    j: int,
)
    requires
        neighbours_in_order(s, leq),
        transitive_on(leq, s),
        0 <= i < j < s.len(),
    ensures
        leq(s[i], s[j]),
    decreases j - i,
{
    assert(s.contains(s[i]) && s.contains(s[j - 1]) && s.contains(s[j]));
    assert(leq(s[j - 1], s[j]));
    if i < j - 1 {
        lemma_neighbours_in_order_reach(s, leq, i, j - 1);
    }
}

/// Where `leq` is transitive on the elements of `s`, a sequence whose
/// neighbours are in order is sorted.
pub proof fn lemma_neighbours_in_order_is_sorted<T>(s: Seq<T>, leq: spec_fn(T, T) -> bool)
    requires
        neighbours_in_order(s, leq),
        transitive_on(leq, s),
    ensures
        sorted_by(s, leq),
{
    assert forall|i: int, j: int| 0 <= i < j < s.len() implies #[trigger] leq(s[i], s[j]) by {
        lemma_neighbours_in_order_reach(s, leq, i, j);
    }
}

/// Two sorted sequences that are permutations of each other are equal,
/// provided that elements related both ways are the same value.
pub proof fn lemma_sorted_permutation_is_unique<T>(
    leq: spec_fn(T, T) -> bool,
    a: Seq<T>,
    b: Seq<T>,
)
    requires
        sorted_by(a, leq),
        sorted_by(b, leq),
        permutation_of(a, b),
        antisymmetric_on(leq, b),
    ensures
        a == b,
    decreases a.len(),
{
    broadcast use group_to_multiset_ensures;

    lemma_permutation_same_elements(a, b);
    if a.len() == 0 {
        assert(a =~= b);
    } else {
        // The two heads are each found somewhere in the other sequence, so
        // each is related to the other.
        assert(a.contains(a[0]) && b.contains(b[0]));
        assert(b.contains(a[0]) && a.contains(b[0]));
        let i = choose|i: int| 0 <= i < a.len() && a[i] == b[0];
        let j = choose|j: int| 0 <= j < b.len() && b[j] == a[0];
        if i != 0 && j != 0 {
            assert(leq(a[0], a[i]));
            assert(leq(b[0], b[j]));
        }
        assert(a[0] == b[0]);

        let a_rest = a.remove(0);
        let b_rest = b.remove(0);
        assert(a_rest.to_multiset() == a.to_multiset().remove(a[0]));
        assert(b_rest.to_multiset() == b.to_multiset().remove(b[0]));
        assert(sorted_by(a_rest, leq)) by {
            assert forall|m: int, n: int| 0 <= m < n < a_rest.len() implies #[trigger] leq(
                a_rest[m],
                a_rest[n],
            ) by {
                assert(a_rest[m] == a[m + 1] && a_rest[n] == a[n + 1]);
            }
        }
        assert(sorted_by(b_rest, leq)) by {
            assert forall|m: int, n: int| 0 <= m < n < b_rest.len() implies #[trigger] leq(
                b_rest[m],
                b_rest[n],
            ) by {
                assert(b_rest[m] == b[m + 1] && b_rest[n] == b[n + 1]);
            }
        }
        assert(drawn_from(b_rest, b)) by {
            assert forall|x: T| b_rest.contains(x) implies b.contains(x) by {
                let k = choose|k: int| 0 <= k < b_rest.len() && b_rest[k] == x;
                assert(b[k + 1] == x);
            }
        }
        lemma_laws_on_drawn(leq, b, b_rest);
        lemma_sorted_permutation_is_unique(leq, a_rest, b_rest);
        assert(a =~= seq![a[0]] + a_rest);
        assert(b =~= seq![b[0]] + b_rest);
    }
}

} // verus!

//! What an ascending arrangement leaves open: under an order in which only identical values tie,
//! nothing. These laws tie the sorted output of a heap to any other sort of the same elements.
use core::cmp::Ordering;
use vstd::laws_cmp::obeys_cmp;
use vstd::laws_eq::obeys_concrete_eq;
use vstd::prelude::*;
use vstd::std_specs::cmp::{OrdSpec, PartialEqSpec, PartialOrdSpec};

use crate::compare::{
    is_total_order, lemma_max_is_total_order, lemma_ranks_le_total, outranks, ranks_le, Compare,
    Max, Min,
};
use crate::heap::{ascends, is_heap, lemma_heap_root_ranks_highest};
use crate::compare::{lemma_min_is_total_order};

verus! {

/// Two values that rank no higher than each other are the same value: the order has no ties
/// between distinct values.
pub open spec fn ties_only_identical<T, C: Compare<T>>(order: C) -> bool {
    forall|x: T, y: T| #[trigger] ranks_le(order, x, y) && #[trigger] ranks_le(order, y, x) ==> x == y
}

/// Among the elements of `s`, two that rank no higher than each other are the same value.
pub open spec fn ties_only_identical_among<T, C: Compare<T>>(order: C, s: Seq<T>) -> bool {
    forall|i: int, j: int|
        0 <= i < s.len() && 0 <= j < s.len() && #[trigger] ranks_le(order, s[i], s[j])
            && #[trigger] ranks_le(order, s[j], s[i]) ==> s[i] == s[j]
}

/// Under a total order in which no two distinct elements of the collection tie, two ascending
/// sequences that hold the same elements are the same sequence. So every correct sort of the
/// collection (`into_sorted_vec`, a `sort_by` with the same comparator, a sorted push loop) gives
/// one and the same result.
pub proof fn lemma_ascending_arrangement_is_unique<T, C: Compare<T>>(order: C, a: Seq<T>, b: Seq<T>)
    requires
        is_total_order(order),
        ties_only_identical_among(order, a),
        ascends(order, a),
        ascends(order, b),
        a.to_multiset() == b.to_multiset(),
    ensures
        a == b,
    decreases a.len(),
{
    broadcast use vstd::seq_lib::group_to_multiset_ensures;

    a.to_multiset_ensures();
    b.to_multiset_ensures();
    if a.len() == 0 {
        assert(b.to_multiset().len() == 0);
        assert(a =~= b);
    } else {
        let n = a.len() as int;
        assert(b.len() == n);
        let x = a[n - 1];
        let y = b[n - 1];
        assert(a.to_multiset().count(x) > 0);
        assert(b.contains(x));
        assert(b.to_multiset().count(y) > 0);
        assert(a.contains(y));
        let j = choose|j: int| 0 <= j < n && b[j] == x;
        let k = choose|k: int| 0 <= k < n && a[k] == y;
        lemma_ranks_le_total(order, x, x);
        lemma_ranks_le_total(order, y, y);
        if j < n - 1 {
            assert(ranks_le(order, b[j], b[n - 1]));
        }
        if k < n - 1 {
            assert(ranks_le(order, a[k], a[n - 1]));
        }
        assert(ranks_le(order, x, y) && ranks_le(order, y, x));
        assert(ranks_le(order, a[n - 1], a[k]) && ranks_le(order, a[k], a[n - 1]));
        assert(x == y);
        let a2 = a.drop_last();
        let b2 = b.drop_last();
        assert(a.remove(n - 1) =~= a2);
        assert(b.remove(n - 1) =~= b2);
        assert(a2.to_multiset() == a.to_multiset().remove(x));
        assert(b2.to_multiset() == b.to_multiset().remove(y));
        assert forall|i: int, k2: int| 0 <= i < k2 < a2.len() implies #[trigger] ranks_le(
            order,
            a2[i],
            a2[k2],
        ) by {
            assert(ranks_le(order, a[i], a[k2]));
        }
        assert forall|i: int, k2: int| 0 <= i < k2 < b2.len() implies #[trigger] ranks_le(
            order,
            b2[i],
            b2[k2],
        ) by {
            assert(ranks_le(order, b[i], b[k2]));
        }
        assert forall|i: int, i2: int|
            0 <= i < a2.len() && 0 <= i2 < a2.len() && #[trigger] ranks_le(order, a2[i], a2[i2])
                && #[trigger] ranks_le(order, a2[i2], a2[i]) implies a2[i] == a2[i2] by {
            assert(ranks_le(order, a[i], a[i2]) && ranks_le(order, a[i2], a[i]));
        }
        lemma_ascending_arrangement_is_unique(order, a2, b2);
        assert(a =~= a2.push(x));
        assert(b =~= b2.push(y));
    }
}

/// `Max` ties only identical values when `T`'s `Ord` obeys its laws and its equality is `==`,
/// as for the integer types.
pub proof fn lemma_max_ties_only_identical<T: Ord>()
    requires
        obeys_cmp::<T>(),
        obeys_concrete_eq::<T>(),
    ensures
        ties_only_identical::<T, Max>(Max),
{
    reveal(vstd::laws_cmp::obeys_cmp_partial_ord);
    reveal(vstd::laws_cmp::obeys_cmp_ord);
    reveal(vstd::laws_cmp::obeys_partial_cmp_spec_properties);
    reveal(obeys_concrete_eq);
    assert forall|x: T, y: T|
        #[trigger] ranks_le(Max, x, y) && #[trigger] ranks_le(Max, y, x) implies x == y by {
        assert(x.partial_cmp_spec(&y) == Some(x.cmp_spec(&y)));
        assert(y.partial_cmp_spec(&x) == Some(y.cmp_spec(&x)));
        if x.cmp_spec(&y) == Ordering::Less {
            assert(y.partial_cmp_spec(&x) == Some(Ordering::Greater));
        }
        assert(x.cmp_spec(&y) == Ordering::Equal);
        assert(x.eq_spec(&y));
    }
}

/// Reversing the comparator reverses the sort: over the same elements, what ascends under `Min`
/// is what ascends under `Max`, read backwards, when `T`'s `Ord` obeys its laws and its equality
/// is `==`.
pub proof fn lemma_min_sorts_in_reverse_of_max<T: Ord>(a: Seq<T>, b: Seq<T>)
    requires
        obeys_cmp::<T>(),
        obeys_concrete_eq::<T>(),
        ascends(Max, a),
        ascends(Min, b),
        a.to_multiset() == b.to_multiset(),
    ensures
        b == a.reverse(),
{
    let c = b.reverse();
    assert forall|i: int, j: int| 0 <= i < j < c.len() implies #[trigger] ranks_le(
        Max,
        c[i],
        c[j],
    ) by {
        let n = b.len();
        assert(ranks_le(Min, b[n - 1 - j], b[n - 1 - i]));
        assert(outranks(Min, b[n - 1 - j], b[n - 1 - i]) == outranks(Max, b[n - 1 - i], b[n - 1 - j]));
    }
    b.lemma_reverse_to_multiset();
    lemma_max_is_total_order::<T>();
    lemma_max_ties_only_identical::<T>();
    assert forall|i: int, j: int|
        0 <= i < a.len() && 0 <= j < a.len() && #[trigger] ranks_le(Max, a[i], a[j])
            && #[trigger] ranks_le(Max, a[j], a[i]) implies a[i] == a[j] by {
        assert(ranks_le(Max, a[i], a[j]) && ranks_le(Max, a[j], a[i]));
    }
    lemma_ascending_arrangement_is_unique(Max, a, c);
    assert(b =~= c.reverse());
}

/// The root of a `Max` heap is a greatest element by `Ord`: no element compares `Greater`
/// against it. This is what `pop` and `peek` hand back from a well-formed `Max` heap.
pub proof fn lemma_max_root_is_greatest<T: Ord>(s: Seq<T>)
    requires
        obeys_cmp::<T>(),
        s.len() > 0,
        is_heap(Max, s),
    ensures
        forall|i: int| 0 <= i < s.len() ==> #[trigger] s[i].cmp_spec(&s[0]) != Ordering::Greater,
{
    lemma_max_is_total_order::<T>();
    lemma_heap_root_ranks_highest(Max, s);
    assert forall|i: int| 0 <= i < s.len() implies #[trigger] s[i].cmp_spec(&s[0])
        != Ordering::Greater by {
        assert(ranks_le(Max, s[i], s[0]));
    }
}

/// The root of a `Min` heap is a least element by `Ord`: it compares `Greater` against no
/// element.
pub proof fn lemma_min_root_is_least<T: Ord>(s: Seq<T>)
    requires
        obeys_cmp::<T>(),
        s.len() > 0,
        is_heap(Min, s),
    ensures
        forall|i: int| 0 <= i < s.len() ==> #[trigger] s[0].cmp_spec(&s[i]) != Ordering::Greater,
{
    lemma_min_is_total_order::<T>();
    lemma_heap_root_ranks_highest(Min, s);
    assert forall|i: int| 0 <= i < s.len() implies #[trigger] s[0].cmp_spec(&s[i])
        != Ordering::Greater by {
        assert(ranks_le(Min, s[i], s[0]));
    }
}

/// What ascends under `Max` ascends by `Ord`: this is the order of `into_sorted_vec` on a
/// `Max` heap.
pub proof fn lemma_max_sorted_ascends_by_ord<T: Ord>(s: Seq<T>)
    requires
        ascends(Max, s),
    ensures
        forall|i: int, j: int|
            0 <= i < j < s.len() ==> #[trigger] s[i].cmp_spec(&s[j]) != Ordering::Greater,
{
    assert forall|i: int, j: int| 0 <= i < j < s.len() implies #[trigger] s[i].cmp_spec(&s[j])
        != Ordering::Greater by {
        assert(ranks_le(Max, s[i], s[j]));
    }
}

/// What ascends under `Min` descends by `Ord`: this is the order of `into_sorted_vec` on a
/// `Min` heap.
pub proof fn lemma_min_sorted_descends_by_ord<T: Ord>(s: Seq<T>)
    requires
        ascends(Min, s),
    ensures
        forall|i: int, j: int|
            0 <= i < j < s.len() ==> #[trigger] s[j].cmp_spec(&s[i]) != Ordering::Greater,
{
    assert forall|i: int, j: int| 0 <= i < j < s.len() implies #[trigger] s[j].cmp_spec(&s[i])
        != Ordering::Greater by {
        assert(ranks_le(Min, s[i], s[j]));
    }
}

} // verus!

//! The comparison trait, the two comparators that cover `Ord`, and what it means for a
//! comparator to order consistently.
use core::cmp::Ordering;
use vstd::laws_cmp::obeys_cmp;
use vstd::prelude::*;
use vstd::std_specs::cmp::{OrdSpec, PartialEqSpec, PartialOrdSpec};

verus! {

/// An order over `T` held as a value.
///
/// The element that compares `Greater` against every other element sits at the root of a heap,
/// so it is the one `pop` returns first.
pub trait Compare<T> {
    /// Whether `compare` answers as `compare_spec` says. An implementation that answers by a
    /// fixed function of the two values overrides this and `compare_spec`; one that keeps the
    /// default (as one written outside verified code does, or one that reads state that changes)
    /// promises nothing of its answers.
    open spec fn obeys_compare_spec(&self) -> bool {
        false
    }

    /// The answer `compare` gives for two values, where `obeys_compare_spec` holds.
    open spec fn compare_spec(&self, left: T, right: T) -> Ordering {
        Ordering::Equal
    }

    /// Orders `left` against `right`.
    fn compare(&self, left: &T, right: &T) -> (order: Ordering)
        ensures
            self.obeys_compare_spec() ==> order == self.compare_spec(*left, *right),
    ;
}

/// `left` strictly outranks `right` under `order`.
pub open spec fn outranks<T, C: Compare<T>>(order: C, left: T, right: T) -> bool {
    order.compare_spec(left, right) == Ordering::Greater
}

/// `left` ranks no higher than `right` under `order`.
pub open spec fn ranks_le<T, C: Compare<T>>(order: C, left: T, right: T) -> bool {
    !outranks(order, left, right)
}

/// The comparator answers by `compare_spec`, and those answers form a total preorder.
pub open spec fn is_total_order<T, C: Compare<T>>(order: C) -> bool {
    order.obeys_compare_spec() && answers_total_preorder(order)
}

/// The answers of `compare_spec` form a total preorder: no two values outrank each other, and
/// "ranks no higher than" is transitive. Ties are allowed, so distinct values may compare
/// `Equal`.
#[verifier::opaque]
pub open spec fn answers_total_preorder<T, C: Compare<T>>(order: C) -> bool {
    &&& forall|a: T, b: T| #[trigger] outranks(order, a, b) ==> !outranks(order, b, a)
    &&& forall|a: T, b: T, c: T|
        #[trigger] ranks_le(order, a, b) && #[trigger] ranks_le(order, b, c) ==> ranks_le(
            order,
            a,
            c,
        )
}

/// Under a total order, outranking is asymmetric.
pub proof fn lemma_outranks_asymmetric<T, C: Compare<T>>(order: C, a: T, b: T)
    requires
        is_total_order(order),
        outranks(order, a, b),
    ensures
        ranks_le(order, b, a),
{
    reveal(answers_total_preorder);
}

/// Under a total order, "ranks no higher than" is transitive.
pub proof fn lemma_ranks_le_transitive<T, C: Compare<T>>(order: C, a: T, b: T, c: T)
    requires
        is_total_order(order),
        ranks_le(order, a, b),
        ranks_le(order, b, c),
    ensures
        ranks_le(order, a, c),
{
    reveal(answers_total_preorder);
}

/// Under a total order any two values are comparable: one ranks no higher than the other.
pub proof fn lemma_ranks_le_total<T, C: Compare<T>>(order: C, a: T, b: T)
    requires
        is_total_order(order),
    ensures
        ranks_le(order, a, b) || ranks_le(order, b, a),
{
    reveal(answers_total_preorder);
}

/// Whether `order.compare(left, right)` answers `Greater`, the one question a heap asks.
pub fn outranks_now<T, C: Compare<T>>(order: &C, left: &T, right: &T) -> (answer: bool)
    ensures
        order.obeys_compare_spec() ==> answer == outranks(*order, *left, *right),
{
    match order.compare(left, right) {
        Ordering::Less => false,
        Ordering::Equal => false,
        Ordering::Greater => true,
    }
}

/// Orders by `Ord` and puts the greatest element at the root.
#[derive(Clone, Copy, Debug, Default, PartialEq, Eq, PartialOrd, Ord, Hash)]
pub struct Max;

/// Orders by `Ord` reversed and puts the least element at the root.
#[derive(Clone, Copy, Debug, Default, PartialEq, Eq, PartialOrd, Ord, Hash)]
pub struct Min;

impl<T: Ord> Compare<T> for Max {
    open spec fn obeys_compare_spec(&self) -> bool {
        T::obeys_cmp_spec()
    }

    open spec fn compare_spec(&self, left: T, right: T) -> Ordering {
        left.cmp_spec(&right)
    }

    fn compare(&self, left: &T, right: &T) -> (order: Ordering)
        ensures
            T::obeys_cmp_spec() ==> order == left.cmp_spec(right),
    {
        left.cmp(right)
    }
}

impl<T: Ord> Compare<T> for Min {
    open spec fn obeys_compare_spec(&self) -> bool {
        T::obeys_cmp_spec()
    }

    open spec fn compare_spec(&self, left: T, right: T) -> Ordering {
        right.cmp_spec(&left)
    }

    fn compare(&self, left: &T, right: &T) -> (order: Ordering)
        ensures
            T::obeys_cmp_spec() ==> order == right.cmp_spec(left),
    {
        right.cmp(left)
    }
}

/// The facts of `Ord` that make `cmp_spec` a total preorder, read off `obeys_cmp`.
proof fn lemma_cmp_spec_total_preorder<T: Ord>()
    requires
        obeys_cmp::<T>(),
    ensures
        T::obeys_cmp_spec(),
        forall|a: T, b: T|
            #[trigger] a.cmp_spec(&b) == Ordering::Greater ==> b.cmp_spec(&a) == Ordering::Less,
        forall|a: T, b: T, c: T|
            #[trigger] a.cmp_spec(&b) != Ordering::Greater && #[trigger] b.cmp_spec(&c)
                != Ordering::Greater ==> a.cmp_spec(&c) != Ordering::Greater,
{
    reveal(vstd::laws_cmp::obeys_cmp_partial_ord);
    reveal(vstd::laws_cmp::obeys_cmp_ord);
    reveal(vstd::laws_cmp::obeys_partial_cmp_spec_properties);
    reveal(vstd::laws_eq::obeys_eq_spec_properties);
    assert forall|a: T, b: T, c: T|
        #[trigger] a.cmp_spec(&b) != Ordering::Greater && #[trigger] b.cmp_spec(&c)
            != Ordering::Greater implies a.cmp_spec(&c) != Ordering::Greater by {
        assert(a.partial_cmp_spec(&b) == Some(a.cmp_spec(&b)));
        assert(b.partial_cmp_spec(&c) == Some(b.cmp_spec(&c)));
        assert(a.partial_cmp_spec(&c) == Some(a.cmp_spec(&c)));
        assert(c.partial_cmp_spec(&a) == Some(c.cmp_spec(&a)));
        assert(c.partial_cmp_spec(&b) == Some(c.cmp_spec(&b)));
        assert(b.partial_cmp_spec(&a) == Some(b.cmp_spec(&a)));
        if a.cmp_spec(&c) == Ordering::Greater {
            assert(c.partial_cmp_spec(&a) == Some(Ordering::Less));
            if a.cmp_spec(&b) == Ordering::Equal && b.cmp_spec(&c) == Ordering::Equal {
                assert(a.eq_spec(&b));
                assert(b.eq_spec(&c));
                assert(a.eq_spec(&c));
            }
        }
    }
    assert forall|a: T, b: T|
        #[trigger] a.cmp_spec(&b) == Ordering::Greater implies b.cmp_spec(&a) == Ordering::Less by {
        assert(a.partial_cmp_spec(&b) == Some(a.cmp_spec(&b)));
        assert(b.partial_cmp_spec(&a) == Some(b.cmp_spec(&a)));
    }
}

/// `Max` orders consistently whenever `T`'s `Ord` obeys its laws, as it does for the integer
/// types, tuples of them and references to them.
pub proof fn lemma_max_is_total_order<T: Ord>()
    requires
        obeys_cmp::<T>(),
    ensures
        is_total_order::<T, Max>(Max),
{
    lemma_cmp_spec_total_preorder::<T>();
    reveal(answers_total_preorder);
}

/// `Min` orders consistently whenever `T`'s `Ord` obeys its laws.
pub proof fn lemma_min_is_total_order<T: Ord>()
    requires
        obeys_cmp::<T>(),
    ensures
        is_total_order::<T, Min>(Min),
{
    lemma_cmp_spec_total_preorder::<T>();
    reveal(answers_total_preorder);
}

/// `Min` is `Max` with its arguments swapped: the two are one mechanism, not separate code.
pub proof fn lemma_min_reverses_max<T: Ord>(left: T, right: T)
    ensures
        Min.compare_spec(left, right) == Max.compare_spec(right, left),
        outranks(Min, left, right) == outranks(Max, right, left),
        Compare::<T>::obeys_compare_spec(&Min) == Compare::<T>::obeys_compare_spec(&Max),
{
}

/// `Max` answers exactly as `Ord` does, for every element type and every pair: its answer to
/// `(left, right)` is `left.cmp(&right)`, so it outranks exactly where `Ord` says `Greater`.
pub proof fn lemma_max_answers_as_ord<T: Ord>(left: T, right: T)
    ensures
        Max.compare_spec(left, right) == left.cmp_spec(&right),
        outranks(Max, left, right) <==> left.cmp_spec(&right) == Ordering::Greater,
        Compare::<T>::obeys_compare_spec(&Max) == T::obeys_cmp_spec(),
{
}

/// `Min` answers exactly as `Ord` reversed, for every element type and every pair: its answer to
/// `(left, right)` is `right.cmp(&left)`, so it outranks exactly where `Ord` says `Less`.
pub proof fn lemma_min_answers_as_reversed_ord<T: Ord>(left: T, right: T)
    ensures
        Min.compare_spec(left, right) == right.cmp_spec(&left),
        outranks(Min, left, right) <==> right.cmp_spec(&left) == Ordering::Greater,
        Compare::<T>::obeys_compare_spec(&Min) == T::obeys_cmp_spec(),
{
}

} // verus!

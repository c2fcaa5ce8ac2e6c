//! The heap and the guard `BinaryHeap::peek_mut` returns.
use vstd::prelude::*;
use vstd::std_specs::iter::IteratorSpec;

use crate::buffer::{buffer_capacity, lemma_swap_keeps_multiset, swap_items};
use crate::tree::{
    higher_child, in_subtree, lemma_subtree_after_root, lemma_subtree_transitive,
    lemma_subtree_children, lemma_subtree_of_parent, lemma_subtree_parent, parent, pushed,
    popped, pushed_all, rebuilt, rebuilt_below, sifted_down, sifted_up, swapped,
};
use crate::compare::{
    is_total_order, lemma_outranks_asymmetric, lemma_ranks_le_total, lemma_ranks_le_transitive,
    outranks_now, ranks_le, Compare, Max, Min,
};

verus! {

/// Position `i` ranks no higher than its parent.
pub open spec fn edge_holds<T, C: Compare<T>>(order: C, s: Seq<T>, i: int) -> bool {
    ranks_le(order, s[i], s[parent(i)])
}

/// Within `s[..end]`, every element whose parent sits at `lo` or later ranks no higher than
/// that parent.
pub open spec fn heap_from<T, C: Compare<T>>(order: C, s: Seq<T>, lo: int, end: int) -> bool {
    forall|i: int| 0 < i < end && lo <= parent(i) ==> #[trigger] edge_holds(order, s, i)
}

/// Within `s[..end]`, every element of the subtree rooted at `top`, other than `top` itself and
/// its children, ranks no higher than its parent: the subtrees of `top`'s children are heaps.
pub open spec fn children_heaps<T, C: Compare<T>>(order: C, s: Seq<T>, top: int, end: int) -> bool {
    forall|i: int|
        0 < i < end && in_subtree(top, i) && i != top && parent(i) != top ==> #[trigger] edge_holds(
            order,
            s,
            i,
        )
}

/// Within `s[..end]`, the subtree rooted at `top` is a heap.
pub open spec fn subtree_heap<T, C: Compare<T>>(order: C, s: Seq<T>, top: int, end: int) -> bool {
    forall|i: int|
        0 < i < end && in_subtree(top, i) && i != top ==> #[trigger] edge_holds(order, s, i)
}

/// Where every element whose parent sits after `node` ranks no higher than that parent, the
/// subtrees of `node`'s children are heaps.
proof fn lemma_children_heaps_from<T, C: Compare<T>>(order: C, s: Seq<T>, node: int, end: int)
    requires
        0 <= node,
        heap_from(order, s, node + 1, end),
    ensures
        children_heaps(order, s, node, end),
{
    assert forall|i: int|
        0 < i < end && in_subtree(node, i) && i != node && parent(i) != node implies #[trigger] edge_holds(
        order,
        s,
        i,
    ) by {
        lemma_subtree_parent(node, i);
        lemma_subtree_after_root(node, parent(i));
    }
}

/// Sifting `node` down turns "every parent after `node` outranks no child" into "every parent
/// from `node` on", when nothing outside `node`'s subtree moved.
proof fn lemma_heap_from_after_sift<T, C: Compare<T>>(
    order: C,
    before: Seq<T>,
    after: Seq<T>,
    node: int,
    end: int,
)
    requires
        0 <= node,
        end <= before.len() == after.len(),
        heap_from(order, before, node + 1, end),
        subtree_heap(order, after, node, end),
        forall|j: int|
            0 <= j < after.len() && (end <= j || !in_subtree(node, j)) ==> #[trigger] after[j]
                == before[j],
    ensures
        heap_from(order, after, node, end),
{
    assert forall|i: int| 0 < i < end && node <= parent(i) implies #[trigger] edge_holds(
        order,
        after,
        i,
    ) by {
        if in_subtree(node, i) {
            assert(i != node);
        } else {
            if in_subtree(node, parent(i)) {
                lemma_subtree_of_parent(node, i);
            }
            assert(after[i] == before[i]);
            assert(after[parent(i)] == before[parent(i)]);
            assert(in_subtree(node, node));
            assert(edge_holds(order, before, i));
        }
    }
}

/// Sifting down any position of an array in which no element outranks its parent moves
/// nothing, so the bottom-up build leaves such an array as it is. No total order is needed.
pub proof fn lemma_rebuilt_keeps_heap<T, C: Compare<T>>(order: C, s: Seq<T>, node: int)
    requires
        is_heap(order, s),
    ensures
        rebuilt_below(order, s, node) == s,
    decreases node,
{
    if node > 0 {
        let pos = node - 1;
        if 0 <= pos && 2 * pos + 1 < s.len() {
            let child = higher_child(order, s, pos, s.len() as int);
            assert(parent(child) == pos);
            assert(edge_holds(order, s, child));
        }
        assert(sifted_down(order, s, pos, s.len() as int) == s);
        lemma_rebuilt_keeps_heap(order, s, node - 1);
    }
}

/// The heap property: no element outranks its parent.
pub open spec fn is_heap<T, C: Compare<T>>(order: C, s: Seq<T>) -> bool {
    heap_from(order, s, 0, s.len() as int)
}

/// `x` ranks at least as high as every element of `s`.
pub open spec fn ranks_highest<T, C: Compare<T>>(order: C, x: T, s: Seq<T>) -> bool {
    forall|i: int| 0 <= i < s.len() ==> #[trigger] ranks_le(order, s[i], x)
}

/// `s` ascends under `order`: no element outranks a later one.
pub open spec fn ascends<T, C: Compare<T>>(order: C, s: Seq<T>) -> bool {
    forall|i: int, j: int| 0 <= i < j < s.len() ==> #[trigger] ranks_le(order, s[i], s[j])
}

/// Under a total order the root of a heap ranks at least as high as every element.
pub proof fn lemma_root_ranks_highest<T, C: Compare<T>>(order: C, s: Seq<T>, end: int)
    requires
        is_total_order(order),
        0 < end <= s.len(),
        heap_from(order, s, 0, end),
    ensures
        ranks_highest(order, s[0], s.subrange(0, end)),
{
    assert forall|i: int| 0 <= i < end implies #[trigger] ranks_le(order, s[i], s[0]) by {
        lemma_below_root(order, s, end, i);
    }
    assert forall|i: int| 0 <= i < end implies #[trigger] ranks_le(
        order,
        s.subrange(0, end)[i],
        s[0],
    ) by {
        assert(s.subrange(0, end)[i] == s[i]);
        assert(ranks_le(order, s[i], s[0]));
    }
}

/// Under a total order the root of a non-empty heap ranks at least as high as every element.
pub proof fn lemma_heap_root_ranks_highest<T, C: Compare<T>>(order: C, s: Seq<T>)
    requires
        is_total_order(order),
        s.len() > 0,
        is_heap(order, s),
    ensures
        ranks_highest(order, s[0], s),
{
    lemma_root_ranks_highest(order, s, s.len() as int);
    assert(s.subrange(0, s.len() as int) =~= s);
}

proof fn lemma_below_root<T, C: Compare<T>>(order: C, s: Seq<T>, end: int, i: int)
    requires
        is_total_order(order),
        0 <= i < end <= s.len(),
        heap_from(order, s, 0, end),
    ensures
        ranks_le(order, s[i], s[0]),
    decreases i,
{
    if i == 0 {
        lemma_ranks_le_total(order, s[0], s[0]);
    } else {
        assert(edge_holds(order, s, i));
        lemma_below_root(order, s, end, parent(i));
        lemma_ranks_le_transitive(order, s[i], s[parent(i)], s[0]);
    }
}

/// When the suffix from `end` is untouched and the prefix keeps its elements, so does the whole.
proof fn lemma_prefix_keeps_multiset<T>(t: Seq<T>, u: Seq<T>, end: int)
    requires
        0 <= end <= t.len() == u.len(),
        u.subrange(0, end).to_multiset() == t.subrange(0, end).to_multiset(),
        forall|k: int| end <= k < u.len() ==> #[trigger] u[k] == t[k],
    ensures
        u.to_multiset() == t.to_multiset(),
{
    let n = u.len() as int;
    assert(u =~= u.subrange(0, end) + u.subrange(end, n));
    assert(t =~= t.subrange(0, end) + t.subrange(end, n));
    assert(u.subrange(end, n) =~= t.subrange(end, n));
    vstd::seq_lib::lemma_multiset_commutative(u.subrange(0, end), u.subrange(end, n));
    vstd::seq_lib::lemma_multiset_commutative(t.subrange(0, end), t.subrange(end, n));
}

/// What `into_sorted_vec` keeps of a buffer `s` whose heap part is `s[..end]`: the heap part
/// is a heap, the rest ascends, and nothing in the heap part outranks anything after it.
pub open spec fn sorted_split<T, C: Compare<T>>(order: C, s: Seq<T>, end: int) -> bool {
    &&& heap_from(order, s, 0, end)
    &&& forall|a: int, b: int| end <= a < b < s.len() ==> #[trigger] ranks_le(order, s[a], s[b])
    &&& forall|i: int, k: int|
        0 <= i < end <= k < s.len() ==> #[trigger] ranks_le(order, s[i], s[k])
}

/// One step of the in-place sort: the root of `s[..end + 1]` is parked at `end` (giving `t`),
/// and `s[..end]` is sifted back into a heap (giving `u`).
proof fn lemma_sorted_suffix_grows<T, C: Compare<T>>(
    order: C,
    s: Seq<T>,
    t: Seq<T>,
    u: Seq<T>,
    end: int,
)
    requires
        is_total_order(order),
        0 <= end < s.len(),
        sorted_split(order, s, end + 1),
        t == s.update(0, s[end]).update(end, s[0]),
        u.len() == t.len(),
        u.subrange(0, end).to_multiset() == t.subrange(0, end).to_multiset(),
        forall|k: int| end <= k < u.len() ==> #[trigger] u[k] == t[k],
        heap_from(order, u, 0, end),
    ensures
        sorted_split(order, u, end),
{
    broadcast use vstd::seq_lib::group_to_multiset_ensures;

    let n = u.len() as int;
    lemma_root_ranks_highest(order, s, end + 1);
    assert forall|i: int| 0 <= i < end implies #[trigger] s.subrange(0, end + 1).contains(u[i]) by {
        let pre = u.subrange(0, end);
        assert(pre[i] == u[i]);
        assert(pre.to_multiset().count(u[i]) > 0);
        assert(t.subrange(0, end).contains(u[i]));
        let j = choose|j: int| 0 <= j < end && #[trigger] t.subrange(0, end)[j] == u[i];
        if j == 0 {
            assert(s.subrange(0, end + 1)[end] == u[i]);
        } else {
            assert(s.subrange(0, end + 1)[j] == u[i]);
        }
    }
    assert forall|i: int, k: int| 0 <= i < end <= k < n implies #[trigger] ranks_le(
        order,
        u[i],
        u[k],
    ) by {
        assert(s.subrange(0, end + 1).contains(u[i]));
        let j = choose|j: int| 0 <= j <= end && #[trigger] s.subrange(0, end + 1)[j] == u[i];
        assert(s.subrange(0, end + 1)[j] == s[j]);
        assert(ranks_le(order, s.subrange(0, end + 1)[j], s[0]));
        if k > end {
            assert(u[k] == s[k]);
            assert(ranks_le(order, s[j], s[k]));
        }
    }
    assert forall|a: int, b: int| end <= a < b < n implies #[trigger] ranks_le(
        order,
        u[a],
        u[b],
    ) by {
        assert(u[b] == s[b]);
        if a == end {
            assert(u[a] == s[0]);
            assert(ranks_le(order, s[0], s[b]));
        } else {
            assert(u[a] == s[a]);
        }
    }
}

/// Writing `value` over the root leaves the elements that a `pop` followed by a `push` of
/// `value` would, which is why a guard's write and `PeekMut::finish` can stand in for the two.
pub proof fn lemma_root_write_is_pop_then_push<T>(s: Seq<T>, value: T)
    requires
        s.len() > 0,
    ensures
        s.update(0, value).to_multiset() == s.to_multiset().remove(s[0]).insert(value),
{
    broadcast use vstd::seq_lib::group_to_multiset_ensures;

    assert(s.to_multiset().count(s[0]) > 0);
    assert(s.update(0, value).to_multiset() =~= s.to_multiset().remove(s[0]).insert(value));
}

/// In a run of pops, each state holds at most as many copies of a value as the one before.
proof fn lemma_drain_shrinks<T>(states: Seq<Seq<T>>, roots: Seq<T>, i: int, j: int, x: T)
    requires
        states.len() == roots.len() + 1,
        forall|k: int|
            0 <= k < roots.len() ==> #[trigger] states[k + 1].to_multiset() == states[k].to_multiset().remove(
                roots[k],
            ),
        0 <= i <= j < states.len(),
    ensures
        states[j].to_multiset().count(x) <= states[i].to_multiset().count(x),
    decreases j - i,
{
    if i < j {
        lemma_drain_shrinks(states, roots, i, j - 1, x);
        assert(states[j - 1 + 1].to_multiset() == states[j - 1].to_multiset().remove(roots[j - 1]));
    }
}

/// The drain never rises: in a run of pops from a heap under a total order (`states[k]` the
/// elements before pop `k`, `roots[k]` what it returned, each step as `pop` promises of a
/// well-formed heap), no later root outranks an earlier one.
pub proof fn lemma_drain_never_rises<T, C: Compare<T>>(
    order: C,
    states: Seq<Seq<T>>,
    roots: Seq<T>,
)
    requires
        is_total_order(order),
        states.len() == roots.len() + 1,
        forall|k: int|
            0 <= k < roots.len() ==> {
                &&& #[trigger] states[k].len() > 0
                &&& roots[k] == states[k][0]
                &&& ranks_highest(order, roots[k], states[k + 1])
                &&& states[k + 1].to_multiset() == states[k].to_multiset().remove(roots[k])
            },
    ensures
        forall|i: int, j: int|
            0 <= i < j < roots.len() ==> #[trigger] ranks_le(order, roots[j], roots[i]),
{
    broadcast use vstd::seq_lib::group_to_multiset_ensures;

    assert forall|k: int|
        0 <= k < roots.len() implies #[trigger] states[k + 1].to_multiset() == states[k].to_multiset().remove(
        roots[k],
    ) by {
        assert(states[k].len() > 0);
    }
    assert forall|i: int, j: int| 0 <= i < j < roots.len() implies #[trigger] ranks_le(
        order,
        roots[j],
        roots[i],
    ) by {
        assert(states[j].len() > 0);
        assert(states[i].len() > 0);
        let x = roots[j];
        assert(states[j][0] == x);
        assert(states[j].contains(x));
        assert(states[j].to_multiset().count(x) > 0);
        lemma_drain_shrinks(states, roots, i + 1, j, x);
        assert(states[i + 1].to_multiset().count(x) > 0);
        let next = states[i + 1];
        assert(next.contains(x));
        let p = choose|p: int| 0 <= p < next.len() && #[trigger] next[p] == x;
        assert(ranks_le(order, next[p], roots[i]));
    }
}

/// A binary heap whose order comes from a comparator held as a value.
///
/// The comparator is written once, in the same expression that writes the element buffer, and
/// there is no way to change it afterwards.
///
/// Equal elements come out in an unspecified order. The heap is not stable.
#[derive(Clone)]
pub struct BinaryHeap<T, C> {
    data: Vec<T>,
    order: C,
}

/// A heap that yields the greatest element first, under `Ord`.
pub type MaxHeap<T> = BinaryHeap<T, Max>;

/// A heap that yields the least element first, under `Ord`.
pub type MinHeap<T> = BinaryHeap<T, Min>;

impl<T, C> View for BinaryHeap<T, C> {
    type V = Seq<T>;

    /// The elements in heap-array order. Index 0 is the root.
    closed spec fn view(&self) -> Seq<T> {
        self.data@
    }
}

impl<T, C> BinaryHeap<T, C> {
    /// The comparator the heap was built with. No operation changes it.
    pub closed spec fn order(&self) -> C {
        self.order
    }

    /// Returns the number of elements.
    pub fn len(&self) -> (len: usize)
        ensures
            len == self@.len(),
    {
        self.data.len()
    }

    /// Returns `true` when the heap holds no elements.
    pub fn is_empty(&self) -> (empty: bool)
        ensures
            empty == (self@.len() == 0),
    {
        self.data.len() == 0
    }

    /// Returns how many elements the heap can hold before it reallocates: never fewer than it
    /// holds, `usize::MAX` for zero-sized elements, and never more than `isize::MAX` bytes.
    pub fn capacity(&self) -> (capacity: usize)
        ensures
            capacity >= self@.len(),
            vstd::layout::size_of::<T>() == 0 ==> capacity == usize::MAX,
            vstd::layout::size_of::<T>() > 0 ==> capacity * vstd::layout::size_of::<T>()
                <= isize::MAX,
    {
        buffer_capacity(&self.data)
    }

    /// Reserves room for at least `additional` more elements. The elements stay as they are.
    pub fn reserve(&mut self, additional: usize)
        requires
            (old(self)@.len() + additional) * vstd::layout::size_of::<T>()
                + vstd::layout::align_of::<T>() <= isize::MAX + 1,
            old(self)@.len() + additional <= usize::MAX,
        ensures
            final(self)@ == old(self)@,
            final(self).order() == old(self).order(),
    {
        self.data.reserve(additional);
    }

    /// Drops every element and keeps the allocated capacity.
    pub fn clear(&mut self)
        ensures
            final(self)@ == Seq::<T>::empty(),
            final(self).order() == old(self).order(),
    {
        self.data.clear();
    }

    /// Returns the elements in heap-array order. Index 0 is the root.
    pub fn as_slice(&self) -> (items: &[T])
        ensures
            items@ == self@,
    {
        self.data.as_slice()
    }

    /// Consumes the heap and returns its buffer in heap-array order, unsorted.
    pub fn into_vec(self) -> (items: Vec<T>)
        ensures
            items@ == self@,
    {
        self.data
    }

    /// Iterates the elements in heap-array order, unsorted.
    pub fn iter(&self) -> (iter: core::slice::Iter<'_, T>)
        ensures
            iter.remaining() == self@.as_ref(),
    {
        broadcast use vstd::std_specs::slice::group_slice_axioms;

        self.data.as_slice().iter()
    }
}

impl<T, C: Compare<T>> BinaryHeap<T, C> {
    /// Under a total order, the heap property. Every heap the constructors build has it and every
    /// operation keeps it; only a guard let go after a write without `PeekMut::finish` can leave
    /// it broken, and then the operations still keep every element exactly once.
    pub open spec fn well_formed(&self) -> bool {
        is_total_order(self.order()) ==> is_heap(self.order(), self@)
    }

    /// Builds an empty heap ordered by `order`. No allocation.
    pub fn new(order: C) -> (heap: Self)
        ensures
            heap@ == Seq::<T>::empty(),
            heap.order() == order,
            heap.well_formed(),
    {
        BinaryHeap { data: Vec::new(), order }
    }

    /// Adds an element. Amortized O(log n).
    pub fn push(&mut self, item: T)
        requires
            old(self)@.len() < usize::MAX,
        ensures
            old(self).well_formed() ==> final(self).well_formed(),
            final(self).order() == old(self).order(),
            final(self)@.len() == old(self)@.len() + 1,
            final(self)@.to_multiset() == old(self)@.to_multiset().insert(item),
            old(self).order().obeys_compare_spec() ==> final(self)@ == pushed(
                old(self).order(),
                old(self)@,
                item,
            ),
    {
        broadcast use vstd::seq_lib::group_to_multiset_ensures;

        let ghost before = self.data@;
        let ghost ordered = self.well_formed();
        self.data.push(item);
        proof {
            if ordered && is_total_order(self.order) {
                assert forall|i: int| 0 < i < self.data@.len() && i != before.len() implies #[trigger] edge_holds(
                    self.order,
                    self.data@,
                    i,
                ) by {
                    assert(edge_holds(self.order, before, i));
                }
            }
        }
        let last = self.data.len() - 1;
        self.sift_up(last, Ghost(ordered));
    }

    /// Turns an existing vector into a heap in O(n), reusing its buffer.
    ///
    /// The build sifts down every position that has a child, the last of them first, so an
    /// array in which no element outranks its parent comes back exactly as it was. A buffer of
    /// zero-sized elements is left as it is without a comparison: every value of such a type is
    /// the same value at run time, so any arrangement already has the heap property.
    pub fn from_vec(vec: Vec<T>, order: C) -> (heap: Self)
        ensures
            heap.order() == order,
            heap@.len() == vec@.len(),
            heap@.to_multiset() == vec@.to_multiset(),
            vstd::layout::size_of::<T>() > 0 ==> heap.well_formed(),
            vstd::layout::size_of::<T>() == 0 ==> heap@ == vec@,
            order.obeys_compare_spec() && vstd::layout::size_of::<T>() > 0 ==> heap@ == rebuilt(
                order,
                vec@,
            ),
            order.obeys_compare_spec() && is_heap(order, vec@) ==> heap@ == vec@,
    {
        let mut heap = BinaryHeap { data: vec, order };
        heap.rebuild();
        proof {
            if order.obeys_compare_spec() && is_heap(order, vec@) && vstd::layout::size_of::<T>()
                > 0 {
                lemma_rebuilt_keeps_heap(order, vec@, (vec@.len() / 2) as int);
            }
        }
        heap
    }

    /// Removes and returns the root, or `None` when the heap is empty. O(log n).
    ///
    /// Under a total order the root ranks at least as high as every element, and so as high as
    /// every element left behind.
    pub fn pop(&mut self) -> (root: Option<T>)
        ensures
            old(self).well_formed() ==> final(self).well_formed(),
            final(self).order() == old(self).order(),
            old(self)@.len() == 0 ==> root is None && final(self)@ == old(self)@,
            old(self)@.len() > 0 ==> {
                &&& root == Some(old(self)@[0])
                &&& final(self)@.len() == old(self)@.len() - 1
                &&& final(self)@.to_multiset() == old(self)@.to_multiset().remove(old(self)@[0])
                &&& old(self).order().obeys_compare_spec() ==> final(self)@ == popped(
                    old(self).order(),
                    old(self)@,
                )
            },
            old(self).well_formed() && old(self)@.len() > 0 && is_total_order(old(self).order())
                ==> {
                &&& ranks_highest(old(self).order(), old(self)@[0], old(self)@)
                &&& ranks_highest(old(self).order(), old(self)@[0], final(self)@)
            },
    {
        if self.data.len() == 0 {
            return None;
        }
        let ghost ordered = self.well_formed();
        proof {
            if ordered && is_total_order(self.order) {
                lemma_root_ranks_highest(self.order, self.data@, self.data@.len() as int);
                assert(self.data@.subrange(0, self.data@.len() as int) =~= self.data@);
            }
        }
        let root = self.remove_root(Ghost(ordered));
        Some(root)
    }

    /// Takes the root out of a non-empty buffer whose only possible flaw is the root itself, and
    /// restores the heap property over what remains.
    fn remove_root(&mut self, Ghost(ordered): Ghost<bool>) -> (root: T)
        requires
            old(self).data@.len() > 0,
            ordered && is_total_order(old(self).order) ==> heap_from(
                old(self).order,
                old(self).data@,
                1,
                old(self).data@.len() as int,
            ),
        ensures
            final(self).order == old(self).order,
            root == old(self).data@[0],
            final(self).data@.len() == old(self).data@.len() - 1,
            final(self).data@.to_multiset() == old(self).data@.to_multiset().remove(root),
            old(self).order.obeys_compare_spec() ==> final(self).data@ == popped(
                old(self).order,
                old(self).data@,
            ),
            ordered && is_total_order(final(self).order) ==> is_heap(final(self).order, final(self).data@),
            forall|i: int|
                0 <= i < final(self).data@.len() ==> old(self).data@.contains(
                    #[trigger] final(self).data@[i],
                ),
    {
        broadcast use vstd::seq_lib::group_to_multiset_ensures;

        let ghost start = self.data@;
        let last = self.data.len() - 1;
        swap_items(&mut self.data, 0, last);
        let ghost exchanged = self.data@;
        proof {
            lemma_swap_keeps_multiset(start, 0, last as int);
            if ordered && is_total_order(self.order) {
                assert forall|i: int| 0 < i < last && 1 <= parent(i) implies #[trigger] edge_holds(
                    self.order,
                    exchanged,
                    i,
                ) by {
                    assert(edge_holds(self.order, start, i));
                }
            }
        }
        proof {
            if ordered && is_total_order(self.order) {
                lemma_children_heaps_from(self.order, exchanged, 0, last as int);
            }
        }
        self.sift_down(0, last, Ghost(ordered));
        let ghost sifted = self.data@;
        proof {
            if ordered && is_total_order(self.order) {
                lemma_heap_from_after_sift(self.order, exchanged, sifted, 0, last as int);
            }
        }
        let root = self.data.pop().unwrap();
        proof {
            assert(sifted =~= sifted.subrange(0, last as int).push(root));
            assert(exchanged =~= exchanged.subrange(0, last as int).push(start[0]));
            assert(sifted[last as int] == exchanged[last as int]);
            assert(self.data@ =~= sifted.subrange(0, last as int));
            assert(exchanged == swapped(start, 0, last as int));
            if ordered && is_total_order(self.order) {
                assert forall|i: int| 0 < i < self.data@.len() && 0 <= parent(i) implies #[trigger] edge_holds(
                    self.order,
                    self.data@,
                    i,
                ) by {
                    assert(edge_holds(self.order, sifted, i));
                }
            }
            assert forall|i: int| 0 <= i < self.data@.len() implies start.contains(
                #[trigger] self.data@[i],
            ) by {
                assert(sifted.to_multiset().count(self.data@[i]) > 0);
                assert(sifted.contains(self.data@[i]));
            }
        }
        root
    }

    /// Returns a reference to the root, or `None` when the heap is empty. O(1).
    pub fn peek(&self) -> (root: Option<&T>)
        ensures
            self@.len() == 0 ==> root is None,
            self@.len() > 0 ==> root == Some(&self@[0]),
            self.well_formed() && self@.len() > 0 && is_total_order(self.order()) ==> ranks_highest(
                self.order(),
                self@[0],
                self@,
            ),
    {
        proof {
            if self.well_formed() && self.data@.len() > 0 && is_total_order(self.order) {
                lemma_root_ranks_highest(self.order, self.data@, self.data@.len() as int);
                assert(self.data@.subrange(0, self.data@.len() as int) =~= self.data@);
            }
        }
        self.data.first()
    }

    /// Consumes the heap and returns its elements ascending under the comparator.
    ///
    /// The work happens in the heap's own buffer. O(n log n). A buffer of zero-sized elements
    /// comes back as it is, without a comparison: all its elements are the same value at run
    /// time, so it is already sorted.
    pub fn into_sorted_vec(self) -> (sorted: Vec<T>)
        ensures
            sorted@.len() == self@.len(),
            sorted@.to_multiset() == self@.to_multiset(),
            vstd::layout::size_of::<T>() == 0 ==> sorted@ == self@,
            vstd::layout::size_of::<T>() > 0 && self.well_formed() && is_total_order(self.order())
                ==> ascends(self.order(), sorted@),
    {
        if core::mem::size_of::<T>() == 0 {
            return self.data;
        }
        let ghost ordered = self.well_formed();
        let mut heap = self;
        let ghost start = heap.data@;
        let ghost order = heap.order;
        let mut end = heap.data.len();
        while end > 1
            invariant
                heap.order == order,
                end <= heap.data@.len() == start.len(),
                heap.data@.to_multiset() == start.to_multiset(),
                ordered && is_total_order(order) ==> sorted_split(order, heap.data@, end as int),
            decreases end,
        {
            let ghost s = heap.data@;
            end = end - 1;
            swap_items(&mut heap.data, 0, end);
            let ghost t = heap.data@;
            proof {
                lemma_swap_keeps_multiset(s, 0, end as int);
                if ordered && is_total_order(order) {
                    assert forall|i: int| 0 < i < end && 1 <= parent(i) implies #[trigger] edge_holds(
                        order,
                        t,
                        i,
                    ) by {
                        assert(edge_holds(order, s, i));
                    }
                }
            }
            proof {
                if ordered && is_total_order(order) {
                    lemma_children_heaps_from(order, t, 0, end as int);
                }
            }
            heap.sift_down(0, end, Ghost(ordered));
            proof {
                if ordered && is_total_order(order) {
                    lemma_heap_from_after_sift(order, t, heap.data@, 0, end as int);
                }
                lemma_prefix_keeps_multiset(t, heap.data@, end as int);
                if ordered && is_total_order(order) {
                    lemma_sorted_suffix_grows(order, s, t, heap.data@, end as int);
                }
            }
        }
        proof {
            if ordered && is_total_order(order) {
                let u = heap.data@;
                assert forall|a: int, b: int| 0 <= a < b < u.len() implies #[trigger] ranks_le(
                    order,
                    u[a],
                    u[b],
                ) by {
                    if a < end {
                        assert(a == 0 && b >= end);
                    }
                }
            }
        }
        heap.data
    }

    /// Builds an empty heap ordered by `order` with room for `capacity` elements.
    ///
    /// `with_capacity(0, order)` allocates nothing and matches `new`.
    pub fn with_capacity(capacity: usize, order: C) -> (heap: Self)
        requires
            capacity * vstd::layout::size_of::<T>() + vstd::layout::align_of::<T>() <= isize::MAX
                + 1,
        ensures
            heap@ == Seq::<T>::empty(),
            heap.order() == order,
            heap.well_formed(),
    {
        BinaryHeap { data: Vec::with_capacity(capacity), order }
    }

    /// Returns the comparator this heap was built with.
    pub fn comparator(&self) -> (order: &C)
        ensures
            *order == self.order(),
    {
        &self.order
    }

    /// Returns a guard over the root, or `None` when the heap is empty. O(1).
    ///
    /// The guard reads the root for free. Writing through it marks the root as changed, and
    /// `PeekMut::finish` then sifts it into place with one sift, against the two a `pop` plus a
    /// `push` would cost.
    pub fn peek_mut(&mut self) -> (guard: Option<PeekMut<'_, T, C>>)
        ensures
            old(self)@.len() == 0 ==> guard is None && *final(self) == *old(self),
            old(self)@.len() > 0 ==> (guard matches Some(g) && {
                &&& g.current() == *old(self)
                &&& !g.sift
                &&& *final(g.heap) == *final(self)
            }),
    {
        if self.data.len() == 0 {
            None
        } else {
            Some(PeekMut { heap: self, sift: false })
        }
    }

    /// Pushes every element of `items`, one at a time, in order. O(m log(n + m)) for m added
    /// elements; loading a whole collection is cheaper through `from_vec`.
    pub fn push_all(&mut self, items: Vec<T>)
        requires
            old(self)@.len() + items@.len() <= usize::MAX,
        ensures
            old(self).well_formed() ==> final(self).well_formed(),
            final(self).order() == old(self).order(),
            final(self)@.len() == old(self)@.len() + items@.len(),
            final(self)@.to_multiset() == old(self)@.to_multiset().add(items@.to_multiset()),
            old(self).order().obeys_compare_spec() ==> final(self)@ == pushed_all(
                old(self).order(),
                old(self)@,
                items@,
            ),
    {
        broadcast use vstd::seq_lib::group_to_multiset_ensures;

        let ghost ordered = self.well_formed();
        let ghost start = self@;
        let ghost all = items@;
        let ghost order = self.order();
        let ghost mut done = Seq::<T>::empty();
        for item in it: items
            invariant
                it.seq() == all,
                done.len() == it.index() <= all.len(),
                forall|i: int| 0 <= i < done.len() ==> #[trigger] done[i] == all[i],
                self.order() == order,
                order == old(self).order(),
                ordered ==> self.well_formed(),
                self@.len() == start.len() + done.len(),
                start.len() + all.len() <= usize::MAX,
                self@.to_multiset() == start.to_multiset().add(done.to_multiset()),
                order.obeys_compare_spec() ==> self@ == pushed_all(order, start, done),
        {
            self.push(item);
            proof {
                vstd::seq_lib::to_multiset_build(done, item);
                assert(self@.to_multiset() =~= start.to_multiset().add(
                    done.push(item).to_multiset(),
                ));
                assert(done.push(item).drop_last() =~= done);
                done = done.push(item);
            }
        }
        proof {
            assert(done =~= all);
        }
    }

    /// Moves the element at `pos` toward the root until its parent outranks it.
    fn sift_up(&mut self, pos: usize, Ghost(ordered): Ghost<bool>)
        requires
            pos < old(self).data@.len(),
            ordered && is_total_order(old(self).order) ==> {
                &&& forall|i: int|
                    0 < i < old(self).data@.len() && i != pos ==> #[trigger] edge_holds(
                        old(self).order,
                        old(self).data@,
                        i,
                    )
                &&& pos > 0 ==> forall|i: int|
                    0 < i < old(self).data@.len() && parent(i) == pos ==> ranks_le(
                        old(self).order,
                        #[trigger] old(self).data@[i],
                        old(self).data@[parent(pos as int)],
                    )
            },
        ensures
            final(self).order == old(self).order,
            final(self).data@.len() == old(self).data@.len(),
            final(self).data@.to_multiset() == old(self).data@.to_multiset(),
            forall|j: int|
                0 <= j < final(self).data@.len() && !in_subtree(j, pos as int)
                    ==> #[trigger] final(self).data@[j] == old(self).data@[j],
            old(self).order.obeys_compare_spec() ==> final(self).data@ == sifted_up(
                old(self).order,
                old(self).data@,
                pos as int,
            ),
            ordered && is_total_order(final(self).order) ==> is_heap(final(self).order, final(self).data@),
    {
        let ghost start = self.data@;
        let ghost bottom = pos as int;
        let ghost order = self.order;
        let mut pos = pos;
        proof {
            assert(in_subtree(bottom, bottom));
        }
        while pos > 0
            invariant
                self.order == old(self).order,
                order == self.order,
                self.data@.len() == start.len(),
                self.data@.to_multiset() == start.to_multiset(),
                pos < self.data@.len(),
                in_subtree(pos as int, bottom),
                forall|j: int|
                    0 <= j < self.data@.len() && !in_subtree(j, bottom) ==> #[trigger] self.data@[j]
                        == start[j],
                order.obeys_compare_spec() ==> sifted_up(order, self.data@, pos as int)
                    == sifted_up(order, start, bottom),
                ordered && is_total_order(self.order) ==> {
                    &&& forall|i: int|
                        0 < i < self.data@.len() && i != pos ==> #[trigger] edge_holds(
                            self.order,
                            self.data@,
                            i,
                        )
                    &&& pos > 0 ==> forall|i: int|
                        0 < i < self.data@.len() && parent(i) == pos ==> ranks_le(
                            self.order,
                            #[trigger] self.data@[i],
                            self.data@[parent(pos as int)],
                        )
                },
            ensures
                self.order == old(self).order,
                self.data@.len() == start.len(),
                self.data@.to_multiset() == start.to_multiset(),
                forall|j: int|
                    0 <= j < self.data@.len() && !in_subtree(j, bottom) ==> #[trigger] self.data@[j]
                        == start[j],
                order.obeys_compare_spec() ==> self.data@ == sifted_up(order, start, bottom),
                ordered && is_total_order(self.order) ==> is_heap(self.order, self.data@),
            decreases pos,
        {
            let up = (pos - 1) / 2;
            proof {
                assert(in_subtree(up as int, up as int));
                assert(in_subtree(up as int, pos as int));
                lemma_subtree_transitive(up as int, pos as int, bottom);
            }
            if !outranks_now(&self.order, &self.data[pos], &self.data[up]) {
                proof {
                    if ordered && is_total_order(self.order) {
                        assert(edge_holds(self.order, self.data@, pos as int));
                    }
                }
                break;
            }
            let ghost s = self.data@;
            proof {
                lemma_swap_keeps_multiset(s, pos as int, up as int);
            }
            swap_items(&mut self.data, pos, up);
            proof {
                let t = self.data@;
                assert(t == swapped(s, pos as int, up as int));
                if ordered && is_total_order(order) {
                    let x = s[pos as int];
                    let p = s[up as int];
                    lemma_outranks_asymmetric(order, x, p);
                    assert forall|i: int| 0 < i < t.len() && i != up implies #[trigger] edge_holds(
                        order,
                        t,
                        i,
                    ) by {
                        if i == pos {
                        } else if parent(i) == pos {
                            assert(ranks_le(order, s[i], s[parent(pos as int)]));
                        } else if parent(i) == up {
                            assert(edge_holds(order, s, i));
                            lemma_ranks_le_transitive(order, s[i], p, x);
                        } else {
                            assert(edge_holds(order, s, i));
                        }
                    }
                    if up > 0 {
                        assert forall|i: int| 0 < i < t.len() && parent(i) == up implies ranks_le(
                            order,
                            #[trigger] t[i],
                            t[parent(up as int)],
                        ) by {
                            assert(edge_holds(order, s, up as int));
                            if i != pos {
                                assert(edge_holds(order, s, i));
                                lemma_ranks_le_transitive(order, s[i], p, s[parent(up as int)]);
                            }
                        }
                    }
                }
            }
            pos = up;
        }
    }

    /// Moves the element at `pos` toward the leaves of the sub-array `..end`.
    fn sift_down(&mut self, pos: usize, end: usize, Ghost(ordered): Ghost<bool>)
        requires
            end <= old(self).data@.len(),
            ordered && is_total_order(old(self).order) ==> children_heaps(
                old(self).order,
                old(self).data@,
                pos as int,
                end as int,
            ),
        ensures
            final(self).order == old(self).order,
            final(self).data@.len() == old(self).data@.len(),
            final(self).data@.to_multiset() == old(self).data@.to_multiset(),
            final(self).data@.subrange(0, end as int).to_multiset() == old(
                self,
            ).data@.subrange(0, end as int).to_multiset(),
            forall|j: int|
                0 <= j < final(self).data@.len() && (end <= j || !in_subtree(pos as int, j))
                    ==> #[trigger] final(self).data@[j] == old(self).data@[j],
            old(self).order.obeys_compare_spec() ==> final(self).data@ == sifted_down(
                old(self).order,
                old(self).data@,
                pos as int,
                end as int,
            ),
            ordered && is_total_order(final(self).order) ==> subtree_heap(
                final(self).order,
                final(self).data@,
                pos as int,
                end as int,
            ),
    {
        let ghost start = self.data@;
        let ghost top = pos as int;
        let ghost order = self.order;
        let mut pos = pos;
        proof {
            assert(in_subtree(top, top));
        }
        while pos < end / 2
            invariant
                self.order == order,
                order == old(self).order,
                end <= self.data@.len() == start.len(),
                0 <= top <= pos,
                in_subtree(top, pos as int),
                self.data@.subrange(0, end as int).to_multiset() == start.subrange(
                    0,
                    end as int,
                ).to_multiset(),
                forall|j: int|
                    0 <= j < self.data@.len() && (end <= j || !in_subtree(top, j))
                        ==> #[trigger] self.data@[j] == start[j],
                order.obeys_compare_spec() ==> sifted_down(order, self.data@, pos as int, end as int)
                    == sifted_down(order, start, top, end as int),
                ordered && is_total_order(order) ==> {
                    &&& forall|i: int|
                        0 < i < end && in_subtree(top, i) && i != top && parent(i) != pos
                            ==> #[trigger] edge_holds(order, self.data@, i)
                    &&& pos != top ==> forall|i: int|
                        0 < i < end && parent(i) == pos ==> ranks_le(
                            order,
                            #[trigger] self.data@[i],
                            self.data@[parent(pos as int)],
                        )
                },
            ensures
                self.order == order,
                self.data@.len() == start.len(),
                self.data@.subrange(0, end as int).to_multiset() == start.subrange(
                    0,
                    end as int,
                ).to_multiset(),
                forall|j: int|
                    0 <= j < self.data@.len() && (end <= j || !in_subtree(top, j))
                        ==> #[trigger] self.data@[j] == start[j],
                order.obeys_compare_spec() ==> self.data@ == sifted_down(
                    order,
                    start,
                    top,
                    end as int,
                ),
                ordered && is_total_order(order) ==> subtree_heap(
                    order,
                    self.data@,
                    top,
                    end as int,
                ),
            decreases end - pos,
        {
            let left = 2 * pos + 1;
            let right = left + 1;
            let mut child = left;
            if right < end && outranks_now(&self.order, &self.data[right], &self.data[left]) {
                child = right;
            }
            let ghost s = self.data@;
            proof {
                lemma_subtree_children(top, pos as int);
                if order.obeys_compare_spec() {
                    assert(child == higher_child(order, s, pos as int, end as int));
                }
                if ordered && is_total_order(order) {
                    if child == right {
                        lemma_outranks_asymmetric(order, s[right as int], s[left as int]);
                    }
                    assert forall|i: int| 0 < i < end && parent(i) == pos implies ranks_le(
                        order,
                        #[trigger] s[i],
                        s[child as int],
                    ) by {
                        if i == child {
                            lemma_ranks_le_total(order, s[i], s[i]);
                        }
                    }
                }
            }
            if !outranks_now(&self.order, &self.data[child], &self.data[pos]) {
                proof {
                    if ordered && is_total_order(order) {
                        assert forall|i: int|
                            0 < i < end && in_subtree(top, i) && i != top implies #[trigger] edge_holds(
                            order,
                            s,
                            i,
                        ) by {
                            if parent(i) == pos {
                                assert(ranks_le(order, s[i], s[child as int]));
                                lemma_ranks_le_transitive(
                                    order,
                                    s[i],
                                    s[child as int],
                                    s[pos as int],
                                );
                            }
                        }
                    }
                }
                break;
            }
            proof {
                lemma_swap_keeps_multiset(s.subrange(0, end as int), pos as int, child as int);
                assert(swapped(s, pos as int, child as int).subrange(0, end as int) =~= swapped(
                    s.subrange(0, end as int),
                    pos as int,
                    child as int,
                ));
            }
            swap_items(&mut self.data, pos, child);
            proof {
                let t = self.data@;
                assert(t == swapped(s, pos as int, child as int));
                if ordered && is_total_order(order) {
                    let x = s[pos as int];
                    let y = s[child as int];
                    lemma_outranks_asymmetric(order, y, x);
                    assert forall|i: int|
                        0 < i < end && in_subtree(top, i) && i != top && parent(i) != child implies #[trigger] edge_holds(
                        order,
                        t,
                        i,
                    ) by {
                        if i == child {
                        } else if parent(i) == pos {
                        } else if i == pos {
                            assert(ranks_le(order, s[child as int], s[parent(pos as int)]));
                        } else {
                            assert(edge_holds(order, s, i));
                        }
                    }
                    assert forall|i: int| 0 < i < end && parent(i) == child implies ranks_le(
                        order,
                        #[trigger] t[i],
                        t[parent(child as int)],
                    ) by {
                        lemma_subtree_of_parent(top, i);
                        assert(edge_holds(order, s, i));
                    }
                }
            }
            pos = child;
        }
        proof {
            lemma_prefix_keeps_multiset(start, self.data@, end as int);
        }
    }

    /// Restores the heap property over the whole buffer, bottom up, in O(n).
    fn rebuild(&mut self)
        ensures
            final(self).order == old(self).order,
            final(self).data@.len() == old(self).data@.len(),
            final(self).data@.to_multiset() == old(self).data@.to_multiset(),
            vstd::layout::size_of::<T>() == 0 ==> final(self).data@ == old(self).data@,
            vstd::layout::size_of::<T>() > 0 && is_total_order(final(self).order) ==> is_heap(
                final(self).order,
                final(self).data@,
            ),
            old(self).order.obeys_compare_spec() && vstd::layout::size_of::<T>() > 0
                ==> final(self).data@ == rebuilt(old(self).order, old(self).data@),
    {
        // Every value of a zero-sized type is the same value, so any arrangement already has the
        // heap property, and the walk below would only call the comparator to no end.
        if core::mem::size_of::<T>() == 0 {
            return;
        }
        let ghost start = self.data@;
        let ghost order = self.order;
        let len = self.data.len();
        let mut node = len / 2;
        while node > 0
            invariant
                self.order == order,
                order == old(self).order,
                len == self.data@.len() == start.len(),
                node <= len / 2,
                self.data@.to_multiset() == start.to_multiset(),
                is_total_order(order) ==> heap_from(order, self.data@, node as int, len as int),
                order.obeys_compare_spec() ==> rebuilt_below(order, self.data@, node as int)
                    == rebuilt(order, start),
            decreases node,
        {
            node = node - 1;
            let ghost before = self.data@;
            proof {
                if is_total_order(order) {
                    lemma_children_heaps_from(order, before, node as int, len as int);
                }
            }
            self.sift_down(node, len, Ghost(true));
            proof {
                if is_total_order(order) {
                    lemma_heap_from_after_sift(order, before, self.data@, node as int, len as int);
                }
            }
        }
    }
}

impl<T, C: Compare<T> + Default> Default for BinaryHeap<T, C> {
    /// Builds an empty heap ordered by `C::default()`.
    fn default() -> (heap: Self)
        ensures
            heap@ == Seq::<T>::empty(),
            heap.well_formed(),
            call_ensures(C::default, (), heap.order()),
    {
        Self::new(C::default())
    }
}

/// Through any run of operations, each keeping the comparator and, from a well-formed heap,
/// well-formedness (as every operation's contract says), every state has the first state's
/// comparator, and every state is well-formed when the first is (as every constructor makes it).
pub proof fn lemma_run_keeps_comparator_and_shape<T, C: Compare<T>>(states: Seq<BinaryHeap<T, C>>)
    requires
        states.len() > 0,
        forall|k: int|
            0 <= k < states.len() - 1 ==> {
                &&& #[trigger] states[k + 1].order() == states[k].order()
                &&& states[k].well_formed() ==> states[k + 1].well_formed()
            },
    ensures
        forall|k: int| 0 <= k < states.len() ==> #[trigger] states[k].order() == states[0].order(),
        states[0].well_formed() ==> forall|k: int|
            0 <= k < states.len() ==> #[trigger] states[k].well_formed(),
    decreases states.len(),
{
    if states.len() > 1 {
        let shorter = states.drop_last();
        assert forall|k: int| 0 <= k < shorter.len() - 1 implies {
            &&& #[trigger] shorter[k + 1].order() == shorter[k].order()
            &&& shorter[k].well_formed() ==> shorter[k + 1].well_formed()
        } by {
            assert(shorter[k + 1] == states[k + 1]);
            assert(shorter[k] == states[k]);
        }
        lemma_run_keeps_comparator_and_shape(shorter);
        let n = states.len() - 1;
        assert(states[n - 1 + 1].order() == states[n - 1].order());
        assert(shorter[n - 1] == states[n - 1]);
        assert forall|k: int| 0 <= k < states.len() implies #[trigger] states[k].order()
            == states[0].order() by {
            if k < n {
                assert(shorter[k] == states[k]);
            }
        }
        if states[0].well_formed() {
            assert forall|k: int| 0 <= k < states.len() implies #[trigger] states[k].well_formed() by {
                if k < n {
                    assert(shorter[k] == states[k]);
                }
            }
        }
    }
}

impl<T, C> IntoIterator for BinaryHeap<T, C> {
    type Item = T;

    type IntoIter = std::vec::IntoIter<T>;

    /// Yields the elements in heap-array order, unsorted.
    fn into_iter(self) -> (iter: std::vec::IntoIter<T>)
        ensures
            iter.remaining() == self@,
    {
        broadcast use vstd::std_specs::vec::group_vec_axioms;

        self.data.into_iter()
    }
}

impl<'a, T, C> IntoIterator for &'a BinaryHeap<T, C> {
    type Item = &'a T;

    type IntoIter = core::slice::Iter<'a, T>;

    /// Yields references in heap-array order, unsorted.
    fn into_iter(self) -> (iter: core::slice::Iter<'a, T>)
        ensures
            iter.remaining() == self@.as_ref(),
    {
        self.iter()
    }
}

/// A guard over the root, returned by `BinaryHeap::peek_mut`.
///
/// `get` reads the root. `get_mut` hands out `&mut T` and marks the root as changed, and
/// `PeekMut::finish` sifts it into place; a guard that only read costs no comparisons. A guard
/// that is let go without `finish` after a write leaves the root where it is: the heap keeps every
/// element and stays usable, and the heap property can stay violated.
pub struct PeekMut<'a, T, C: Compare<T>> {
    /// The heap whose root the guard covers.
    pub heap: &'a mut BinaryHeap<T, C>,
    /// Set once the root may have changed.
    pub sift: bool,
}

impl<'a, T, C: Compare<T>> PeekMut<'a, T, C> {
    /// The heap as the guard sees it now.
    pub open spec fn current(&self) -> BinaryHeap<T, C> {
        *self.heap
    }

    /// Under a total order, every element but the root ranks no higher than its parent: the
    /// state a heap is in once its root has been overwritten.
    pub open spec fn flawed_at_root_only(&self) -> bool {
        is_total_order(self.current().order()) ==> heap_from(
            self.current().order(),
            self.current()@,
            1,
            self.current()@.len() as int,
        )
    }

    /// Reads the root.
    pub fn get(&self) -> (root: &T)
        requires
            self.current()@.len() > 0,
        ensures
            *root == self.current()@[0],
    {
        &self.heap.data[0]
    }

    /// Hands out the root for writing and marks it as changed.
    pub fn get_mut(&mut self) -> (root: &mut T)
        requires
            old(self).current()@.len() > 0,
        ensures
            *root == old(self).current()@[0],
            final(self).current()@ == old(self).current()@.update(0, *final(root)),
            final(self).current().order() == old(self).current().order(),
            final(self).sift,
            old(self).flawed_at_root_only() ==> final(self).flawed_at_root_only(),
            *final(final(self).heap) == *final(old(self).heap),
    {
        self.sift = true;
        proof {
            let order = self.heap.order;
            let s = self.heap.data@;
            if is_total_order(order) && heap_from(order, s, 1, s.len() as int) {
                assert forall|v: T| #[trigger] heap_from(order, s.update(0, v), 1, s.len() as int) by {
                    assert forall|i: int| 0 < i < s.len() && 1 <= parent(i) implies #[trigger] edge_holds(
                        order,
                        s.update(0, v),
                        i,
                    ) by {
                        assert(edge_holds(order, s, i));
                    }
                }
            }
        }
        &mut self.heap.data[0]
    }

    /// Removes and returns the root.
    ///
    /// An associated function, not a method, so it cannot shadow a `pop` of the element type.
    pub fn pop(this: Self) -> (root: T)
        requires
            this.current()@.len() > 0,
        ensures
            root == this.current()@[0],
            final(this.heap).order() == this.current().order(),
            final(this.heap)@.len() == this.current()@.len() - 1,
            final(this.heap)@.to_multiset() == this.current()@.to_multiset().remove(root),
            this.current().order().obeys_compare_spec() ==> final(this.heap)@ == popped(
                this.current().order(),
                this.current()@,
            ),
            this.flawed_at_root_only() ==> final(this.heap).well_formed(),
    {
        let mut this = this;
        this.sift = false;
        let ghost ordered = this.flawed_at_root_only();
        this.heap.remove_root(Ghost(ordered))
    }

    /// Lets go of the guard: a root that was written is sifted into place, once; a guard that
    /// only read compares nothing and changes nothing.
    pub fn finish(this: Self)
        ensures
            final(this.heap).order() == this.current().order(),
            final(this.heap)@.len() == this.current()@.len(),
            final(this.heap)@.to_multiset() == this.current()@.to_multiset(),
            this.sift && this.flawed_at_root_only() ==> final(this.heap).well_formed(),
            this.sift && this.current().order().obeys_compare_spec() ==> final(this.heap)@
                == sifted_down(
                this.current().order(),
                this.current()@,
                0,
                this.current()@.len() as int,
            ),
            !this.sift ==> *final(this.heap) == this.current(),
    {
        let mut this = this;
        if this.sift {
            let end = this.heap.data.len();
            let ghost before = this.heap.data@;
            let ghost ordered = this.flawed_at_root_only();
            proof {
                if ordered && is_total_order(this.heap.order) {
                    lemma_children_heaps_from(this.heap.order, before, 0, end as int);
                }
            }
            this.heap.sift_down(0, end, Ghost(ordered));
            proof {
                if ordered && is_total_order(this.heap.order) {
                    lemma_heap_from_after_sift(this.heap.order, before, this.heap.data@, 0, end as int);
                }
                assert(this.heap.data@.subrange(0, end as int) =~= this.heap.data@);
                assert(before.subrange(0, end as int) =~= before);
            }
        }
    }
}

} // verus!

//! Positions in heap-array order, and what each sift makes of a buffer.
//!
//! The spec functions here say, step by step, where a sift moves elements: they are the
//! arrangement the heap's operations produce when the comparator answers by its `compare_spec`.
use vstd::prelude::*;

use crate::compare::{outranks, Compare};

verus! {

/// The index of the parent of position `i > 0` in heap-array order.
pub open spec fn parent(i: int) -> int {
    (i - 1) / 2
}

/// Position `i` lies in the subtree rooted at `root`: it is `root` or descends from it.
pub open spec fn in_subtree(root: int, i: int) -> bool
    decreases i,
{
    if i <= root {
        i == root
    } else if i <= 0 {
        false
    } else {
        in_subtree(root, parent(i))
    }
}

/// `s` with the elements at `a` and `b` exchanged.
pub open spec fn swapped<T>(s: Seq<T>, a: int, b: int) -> Seq<T> {
    s.update(a, s[b]).update(b, s[a])
}

/// The child of `pos` that a sift down over `s[..end]` looks at: the right one when it exists and
/// outranks the left one, else the left one.
pub open spec fn higher_child<T, C: Compare<T>>(order: C, s: Seq<T>, pos: int, end: int) -> int {
    if 2 * pos + 2 < end && outranks(order, s[2 * pos + 2], s[2 * pos + 1]) {
        2 * pos + 2
    } else {
        2 * pos + 1
    }
}

/// What sifting the element at `pos` down through `s[..end]` makes of `s`: while `pos` has a child
/// in range and its higher child outranks it, the two trade places.
pub open spec fn sifted_down<T, C: Compare<T>>(order: C, s: Seq<T>, pos: int, end: int) -> Seq<T>
    decreases end - pos,
{
    if 0 <= pos && 2 * pos + 1 < end {
        let child = higher_child(order, s, pos, end);
        if outranks(order, s[child], s[pos]) {
            sifted_down(order, swapped(s, pos, child), child, end)
        } else {
            s
        }
    } else {
        s
    }
}

/// What sifting the element at `pos` up toward the root makes of `s`: while it outranks its
/// parent, the two trade places.
pub open spec fn sifted_up<T, C: Compare<T>>(order: C, s: Seq<T>, pos: int) -> Seq<T>
    decreases pos,
{
    if 0 < pos && outranks(order, s[pos], s[parent(pos)]) {
        sifted_up(order, swapped(s, pos, parent(pos)), parent(pos))
    } else {
        s
    }
}

/// Sifts down every position below `node`, from `node - 1` back to the root.
pub open spec fn rebuilt_below<T, C: Compare<T>>(order: C, s: Seq<T>, node: int) -> Seq<T>
    decreases node,
{
    if node <= 0 {
        s
    } else {
        rebuilt_below(order, sifted_down(order, s, node - 1, s.len() as int), node - 1)
    }
}

/// The bottom-up heap construction: every position that has a child is sifted down, the last
/// of them first.
pub open spec fn rebuilt<T, C: Compare<T>>(order: C, s: Seq<T>) -> Seq<T> {
    rebuilt_below(order, s, (s.len() / 2) as int)
}

/// `s` without its root: the last element takes the root's place and is sifted down through the
/// rest.
pub open spec fn popped<T, C: Compare<T>>(order: C, s: Seq<T>) -> Seq<T> {
    let last = s.len() - 1;
    sifted_down(order, swapped(s, 0, last), 0, last).take(last)
}

/// `s` with `item` appended and sifted up.
pub open spec fn pushed<T, C: Compare<T>>(order: C, s: Seq<T>, item: T) -> Seq<T> {
    sifted_up(order, s.push(item), s.len() as int)
}

/// `s` after pushing each of `items`, in order.
pub open spec fn pushed_all<T, C: Compare<T>>(order: C, s: Seq<T>, items: Seq<T>) -> Seq<T>
    decreases items.len(),
{
    if items.len() == 0 {
        s
    } else {
        pushed(order, pushed_all(order, s, items.drop_last()), items.last())
    }
}

/// A subtree's positions lie at or after its root.
pub proof fn lemma_subtree_after_root(root: int, i: int)
    requires
        in_subtree(root, i),
    ensures
        i >= root,
    decreases i,
{
    if i > root && i > 0 {
        lemma_subtree_after_root(root, parent(i));
    }
}

/// Every position other than a subtree's root has its parent in the subtree too, and lies at
/// or after the root's left child.
pub proof fn lemma_subtree_parent(root: int, i: int)
    requires
        in_subtree(root, i),
        i != root,
    ensures
        i > root,
        i > 0,
        in_subtree(root, parent(i)),
        i >= 2 * root + 1,
{
    lemma_subtree_after_root(root, i);
    lemma_subtree_after_root(root, parent(i));
}

/// The children of a position in a subtree are in the subtree.
pub proof fn lemma_subtree_children(root: int, p: int)
    requires
        0 <= root,
        in_subtree(root, p),
    ensures
        in_subtree(root, 2 * p + 1),
        in_subtree(root, 2 * p + 2),
{
    lemma_subtree_after_root(root, p);
    assert(parent(2 * p + 1) == p);
    assert(parent(2 * p + 2) == p);
}

/// A position whose parent is in a subtree is in it, unless it is the subtree's root.
pub proof fn lemma_subtree_of_parent(root: int, i: int)
    requires
        0 <= root,
        0 < i,
        in_subtree(root, parent(i)),
    ensures
        in_subtree(root, i),
{
    lemma_subtree_after_root(root, parent(i));
}

/// Descent is transitive.
pub proof fn lemma_subtree_transitive(a: int, b: int, c: int)
    requires
        0 <= a,
        in_subtree(a, b),
        in_subtree(b, c),
    ensures
        in_subtree(a, c),
    decreases c,
{
    lemma_subtree_after_root(a, b);
    lemma_subtree_after_root(b, c);
    if c != b {
        lemma_subtree_parent(b, c);
        lemma_subtree_transitive(a, b, parent(c));
        lemma_subtree_of_parent(a, c);
    }
}

} // verus!

//! Every comparator shape a caller can build, from a downstream crate.

use std::cmp::Ordering;
use std::fmt::Debug;
use std::iter::FusedIterator;
use std::slice::Iter;
use std::vec::IntoIter;

use binary_heap::{BinaryHeap, Compare, Max, MaxHeap, Min, MinHeap};

/// Adapts any `Fn(&T, &T) -> Ordering` into a comparator, the shape a closure, a function pointer
/// and a boxed `dyn Fn` all take.
struct ByFn<F>(F);

impl<T, F: Fn(&T, &T) -> Ordering> Compare<T> for ByFn<F> {
    fn compare(&self, left: &T, right: &T) -> Ordering {
        (self.0)(left, right)
    }
}

/// A comparator chosen after the program starts, which is the shape a runtime flag produces.
type BoxedOrder = Box<dyn Fn(&i32, &i32) -> Ordering>;

/// A comparator with no fields, the shape `Max` and `Min` use.
struct ByLowBits;

impl Compare<i32> for ByLowBits {
    fn compare(&self, left: &i32, right: &i32) -> Ordering {
        (left & 0xF).cmp(&(right & 0xF))
    }
}

/// A comparator that holds state, which the order can then depend on.
struct NearestTo {
    target: i32,
}

impl Compare<i32> for NearestTo {
    fn compare(&self, left: &i32, right: &i32) -> Ordering {
        // Nearer to the target ranks higher, so the root is the nearest element.
        let distance = |value: &i32| (value - self.target).unsigned_abs();
        distance(right).cmp(&distance(left))
    }
}

#[test]
fn a_named_comparator_type_does_not_collide_with_the_blanket_fn_impl() {
    let mut heap = BinaryHeap::new(ByLowBits);
    heap.push(0x21);
    heap.push(0x1F);
    heap.push(0x40);
    assert_eq!(heap.pop(), Some(0x1F));
}

#[test]
fn a_stateful_comparator_type_orders_by_its_own_field() {
    let heap = BinaryHeap::from_vec(vec![1, 40, 19, 26], NearestTo { target: 20 });
    assert_eq!(heap.peek(), Some(&19));
    // Ascending under this comparator runs from farthest to nearest.
    assert_eq!(heap.into_sorted_vec(), vec![40, 1, 26, 19]);
}

#[test]
fn a_closure_a_function_pointer_and_a_boxed_dyn_fn_all_build_a_heap() {
    let mut from_closure = BinaryHeap::new(ByFn(|a: &i32, b: &i32| a.cmp(b)));
    from_closure.push(3);
    from_closure.push(8);
    assert_eq!(from_closure.pop(), Some(8));

    let pointer: fn(&i32, &i32) -> Ordering = |a, b| b.cmp(a);
    let mut from_pointer = BinaryHeap::new(ByFn(pointer));
    from_pointer.push(3);
    from_pointer.push(8);
    assert_eq!(from_pointer.pop(), Some(3));

    // The runtime-dispatch shape. The order is chosen from a table after the program starts.
    let table: [BoxedOrder; 2] = [
        Box::new(|a, b| a.cmp(b)),
        Box::new(|a, b| (a % 10).cmp(&(b % 10))),
    ];
    let mut chosen = BinaryHeap::new(ByFn(table.into_iter().nth(1).unwrap()));
    chosen.push(37);
    chosen.push(45);
    assert_eq!(chosen.pop(), Some(37));
}

#[test]
fn the_type_aliases_default_and_collect() {
    let mut least = MinHeap::<i32>::default();
    least.push(9);
    least.push(2);
    assert_eq!(least.pop(), Some(2));

    let greatest: MaxHeap<i32> = BinaryHeap::from_vec(vec![3, 8, 5], Max);
    assert_eq!(greatest.into_sorted_vec(), vec![3, 5, 8]);
}

#[test]
fn an_element_type_without_clone_supports_everything_but_cloning() {
    #[derive(Debug, PartialEq)]
    struct Opaque(u8);

    let mut heap = BinaryHeap::from_vec(
        vec![Opaque(3), Opaque(9), Opaque(1)],
        ByFn(|a: &Opaque, b: &Opaque| a.0.cmp(&b.0)),
    );

    assert_eq!(heap.peek(), Some(&Opaque(9)));
    heap.push(Opaque(5));
    assert_eq!(heap.pop(), Some(Opaque(9)));
    assert_eq!(heap.len(), 3);
    assert_eq!(heap.iter().count(), 3);
    assert_eq!(
        heap.into_sorted_vec(),
        vec![Opaque(1), Opaque(3), Opaque(5)]
    );
}

#[test]
fn max_and_min_answer_by_ord() {
    assert_eq!(Max.compare(&2, &1), Ordering::Greater);
    assert_eq!(Max.compare(&1, &2), Ordering::Less);
    assert_eq!(Max.compare(&4, &4), Ordering::Equal);
    assert_eq!(Min.compare(&2, &1), Ordering::Less);
    assert_eq!(Min.compare(&1, &2), Ordering::Greater);
    assert_eq!(Min.compare(&4, &4), Ordering::Equal);
}

#[test]
fn the_comparator_answers_as_the_one_the_heap_was_built_with() {
    let heap: BinaryHeap<i32, Max> = BinaryHeap::new(Max);
    assert_eq!(heap.comparator().compare(&1, &2), Ordering::Less);

    let heap = BinaryHeap::from_vec(vec![5, 9], NearestTo { target: 8 });
    assert_eq!(heap.comparator().target, 8);
    assert_eq!(heap.comparator().compare(&9, &5), Ordering::Greater);
}

/// Names every trait the buffer's own iterators hand callers.
fn every_capability<I>(iterator: I) -> I
where
    I: DoubleEndedIterator + ExactSizeIterator + FusedIterator + Debug,
{
    iterator
}

#[test]
fn iter_returns_the_crate_type_and_keeps_every_capability_the_slice_iterator_gave() {
    // `iter` hands out std's slice iterator itself; this checks every capability it carries.
    let heap = BinaryHeap::from_vec(vec![1, 5, 3], Max);
    let order: Vec<i32> = heap.as_slice().to_vec();

    let mut borrowed: Iter<'_, i32> = every_capability(heap.iter());
    assert_eq!(borrowed.len(), 3);
    assert_eq!(borrowed.size_hint(), (3, Some(3)));
    assert_eq!(format!("{:?}", borrowed), format!("Iter({:?})", heap.as_slice()));

    assert_eq!(borrowed.clone().copied().collect::<Vec<i32>>(), order);
    let mut backward = order.clone();
    backward.reverse();
    assert_eq!(borrowed.clone().rev().copied().collect::<Vec<i32>>(), backward);

    assert_eq!(borrowed.next_back(), order.last());
    assert_eq!(borrowed.next(), order.first());
    assert_eq!(borrowed.count(), 1);

    assert_eq!(heap.iter().nth(1), order.get(1));

    // `&heap` iterates through the same type.
    let by_reference: Iter<'_, i32> = (&heap).into_iter();
    assert_eq!(by_reference.last(), order.last());
}

#[test]
fn into_iter_returns_the_crate_type_and_keeps_every_capability_the_vector_iterator_gave() {
    // `into_iter` hands out std's vector iterator itself; this checks every capability it carries.
    let heap = BinaryHeap::from_vec(vec![1, 5, 3], Max);
    let order: Vec<i32> = heap.as_slice().to_vec();

    let mut owned: IntoIter<i32> = every_capability(heap.into_iter());
    assert_eq!(owned.len(), 3);
    assert_eq!(owned.size_hint(), (3, Some(3)));
    assert_eq!(format!("{:?}", owned), format!("IntoIter({:?})", order));

    assert_eq!(owned.clone().collect::<Vec<i32>>(), order);

    assert_eq!(owned.next_back(), order.last().copied());
    assert_eq!(owned.nth(1), order.get(1).copied());
    assert_eq!(owned.count(), 0);
}

# binary_heap

A binary heap ordered by a comparator held as a value, written in Verus.

- `src/compare.rs`: the `Compare` trait, the `Max` and `Min` comparators, and what it means for a
  comparator to order consistently (`is_total_order`), with proofs that `Max` and `Min` do
  whenever the element type's `Ord` obeys its laws.
- `src/heap.rs`: `BinaryHeap`, its operations with their contracts over the heap's view (the
  elements in heap-array order), and the `PeekMut` guard.
- `src/tree.rs`: positions in heap-array order (parents, subtrees) and spec functions that say
  exactly what each sift, the bottom-up build, `push`, `push_all` and `pop` make of a buffer.
- `src/sorting.rs`: laws about ascending arrangements: under an order with no ties between
  distinct elements there is exactly one, and `Min` sorts in the reverse of `Max`.
- `src/buffer.rs`: a verified swap of two buffer positions, and the buffer's capacity, the one
  call that vstd does not specify.
- `app/lib.rs`: an adapter that turns a closure into a comparator, and a debug printer.
- `tests/`: scenario tests run against the compiled library.

//! Operations on the element buffer: a verified swap of two positions, and the buffer's
//! capacity, which vstd gives no specification.
use vstd::prelude::*;

verus! {

/// Exchanges the elements at `a` and `b`: the buffer is split just before the later position,
/// so the two elements sit in different halves and can be borrowed at once.
pub(crate) fn swap_items<T>(items: &mut Vec<T>, a: usize, b: usize)
    requires
        a < old(items)@.len(),
        b < old(items)@.len(),
    ensures
        final(items)@ == old(items)@.update(a as int, old(items)@[b as int]).update(
            b as int,
            old(items)@[a as int],
        ),
{
    if a == b {
        proof {
            assert(old(items)@.update(a as int, old(items)@[b as int]).update(
                b as int,
                old(items)@[a as int],
            ) =~= old(items)@);
        }
        return;
    }
    let (lo, hi) = if a < b {
        (a, b)
    } else {
        (b, a)
    };
    let ghost s = items@;
    let whole = items.as_mut_slice();
    let (front, back) = whole.split_at_mut(hi);
    let (_, from_lo) = front.split_at_mut(lo);
    match (from_lo.first_mut(), back.first_mut()) {
        (Some(low), Some(high)) => {
            core::mem::swap(low, high);
        },
        _ => {},
    }
    proof {
        assert(final(items)@ =~= s.update(a as int, s[b as int]).update(b as int, s[a as int]));
    }
}

/// `Vec::capacity`: how many elements the buffer holds before it reallocates. std documents that
/// this is at least the length, that a vector of zero-sized elements reports `usize::MAX`, and
/// that no allocation exceeds `isize::MAX` bytes. Beyond that the exact number is the allocator's
/// and is left unsaid.
#[verifier::external_body]
pub(crate) fn buffer_capacity<T>(items: &Vec<T>) -> (capacity: usize)
    ensures
        capacity >= items@.len(),
        vstd::layout::size_of::<T>() == 0 ==> capacity == usize::MAX,
        vstd::layout::size_of::<T>() > 0 ==> capacity * vstd::layout::size_of::<T>()
            <= isize::MAX,
{
    items.capacity()
}

/// Swapping two positions keeps the multiset of elements.
pub proof fn lemma_swap_keeps_multiset<T>(s: Seq<T>, a: int, b: int)
    requires
        0 <= a < s.len(),
        0 <= b < s.len(),
    ensures
        s.update(a, s[b]).update(b, s[a]).to_multiset() == s.to_multiset(),
{
    broadcast use vstd::seq_lib::group_to_multiset_ensures;

    let t = s.update(a, s[b]);
    assert(t[b] == s[b]);
    assert(s.to_multiset().count(s[a]) > 0);
    assert(t.update(b, s[a]).to_multiset() =~= s.to_multiset());
}

} // verus!

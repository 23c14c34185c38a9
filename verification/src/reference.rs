//! The heap of the `rudac` crate, as far as the schedule uses it: a min-heap
//! of `u16` that is made empty, pushed to and popped from.
//!
//! Nothing here is proved. Each contract says what the source of `rudac`
//! shows of the function it is about, over the two names below.
use rudac::heap::FibonacciHeap;
use vstd::multiset::Multiset;
use vstd::prelude::*;

verus! {

/// `rudac::heap::FibonacciHeap`, as a value that is handed on and never
/// looked into.
#[verifier::external_type_specification]
#[verifier::external_body]
#[verifier::reject_recursive_types(T)]
pub struct ExFibonacciHeap<T: Ord>(FibonacciHeap<T>);

/// The values that the heap holds, each as often as it has been pushed and
/// not yet popped.
pub uninterp spec fn reference_contents(heap: FibonacciHeap<u16>) -> Multiset<u16>;

/// Whether the heap was made as a min-heap, by `init_min`, rather than as a
/// max-heap.
pub uninterp spec fn reference_is_min(heap: FibonacciHeap<u16>) -> bool;

/// `FibonacciHeap::init_min`. The heap that it returns is a min-heap and
/// holds nothing.
#[verifier::external_body]
pub(crate) fn reference_init_min() -> (heap: FibonacciHeap<u16>)
    ensures
        reference_is_min(heap),
        reference_contents(heap) == Multiset::<u16>::empty(),
{
    FibonacciHeap::init_min()
}

/// `FibonacciHeap::push`. The heap holds `value` once more than before, and
/// is the kind of heap it was.
#[verifier::external_body]
pub(crate) fn reference_push(heap: &mut FibonacciHeap<u16>, value: u16)
    ensures
        reference_is_min(*final(heap)) == reference_is_min(*old(heap)),
        reference_contents(*final(heap)) == reference_contents(*old(heap)).insert(value),
{
    heap.push(value)
}

/// `FibonacciHeap::pop`, on a min-heap. From a heap that holds nothing it
/// returns `None` and leaves the heap as it is. Otherwise it returns a value
/// that the heap holds and that is no greater than any other, and the heap
/// holds that value once less than before.
#[verifier::external_body]
pub(crate) fn reference_pop(heap: &mut FibonacciHeap<u16>) -> (min: Option<u16>)
    requires
        reference_is_min(*old(heap)),
    ensures
        reference_is_min(*final(heap)),
        match min {
            Some(v) => {
                &&& reference_contents(*old(heap)).count(v) > 0
                &&& forall|w: u16| reference_contents(*old(heap)).count(w) > 0 ==> v <= w
                &&& reference_contents(*final(heap)) == reference_contents(*old(heap)).remove(v)
            },
            None => {
                &&& reference_contents(*old(heap)) == Multiset::<u16>::empty()
                &&& reference_contents(*final(heap)) == reference_contents(*old(heap))
            },
        },
{
    heap.pop()
}

} // verus!

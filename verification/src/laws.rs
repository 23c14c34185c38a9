//! What holds of a heap over several calls.
//!
//! Each law is stated over the heap before and after a call, related as the
//! contract of the call relates them.
use crate::heap::FibHeap;
use crate::order::{le, obeys_total_order};
use crate::store::Handle;
use vstd::prelude::*;

verus! {

/// `after` is what `extract_min` leaves of the non-empty heap `before`.
pub open spec fn is_extraction<T: PartialOrd>(before: FibHeap<T>, after: FibHeap<T>) -> bool {
    &&& before.min_handle() is Some
    &&& after@ == before@.remove(before.min_handle()->0)
    &&& after.issued() == before.issued()
}

/// `after` is what `insert` makes of `before` when it puts `value` in and
/// returns `handle`.
pub open spec fn is_insertion<T: PartialOrd>(
    before: FibHeap<T>,
    after: FibHeap<T>,
    handle: Handle,
    value: T,
) -> bool {
    &&& !before.issued().contains(handle)
    &&& after@ == before@.insert(handle, value)
    &&& after.issued() == before.issued().insert(handle)
}

/// The handle was given out by the heap and names no node of it any more.
pub open spec fn is_dead<T: PartialOrd>(heap: FibHeap<T>, handle: Handle) -> bool {
    heap.issued().contains(handle) && !heap@.dom().contains(handle)
}

/// The value that `get_min` shows and `extract_min` returns.
pub open spec fn min_value<T: PartialOrd>(heap: FibHeap<T>) -> T {
    heap@[heap.min_handle()->0]
}

/// Draining a heap yields its values in ascending order: of the values that
/// successive calls of `extract_min` return, with nothing inserted or
/// lowered in between, none sorts before an earlier one. `states[k]` is the
/// heap before the `k`-th call.
pub proof fn lemma_drain_ascends<T: PartialOrd>(states: Seq<FibHeap<T>>, i: int, j: int)
    requires
        obeys_total_order::<T>(),
        forall|k: int| 0 <= k < states.len() ==> (#[trigger] states[k]).wf(),
        forall|k: int|
            0 <= k < states.len() - 1 ==> is_extraction(states[k], #[trigger] states[k + 1]),
        0 <= i <= j < states.len() - 1,
    ensures
        le(min_value(states[i]), min_value(states[j])),
{
    lemma_drain_shrinks(states, i, j);
    states[i].lemma_min_is_least();
    states[j].lemma_min_is_least();
    assert(is_extraction(states[j], states[j + 1]));
}

/// While a heap is drained it only loses values: what it holds later it
/// held before, under the same handle.
pub proof fn lemma_drain_shrinks<T: PartialOrd>(states: Seq<FibHeap<T>>, i: int, j: int)
    requires
        forall|k: int|
            0 <= k < states.len() - 1 ==> is_extraction(states[k], #[trigger] states[k + 1]),
        0 <= i <= j < states.len(),
    ensures
        forall|h: Handle| #[trigger]
            states[j]@.dom().contains(h) ==> states[i]@.dom().contains(h) && states[i]@[h]
                == states[j]@[h],
    decreases j - i,
{
    if i < j {
        lemma_drain_shrinks(states, i, j - 1);
        assert(is_extraction(states[j - 1], states[j - 1 + 1]));
    }
}

/// The handle of a value that was extracted is dead.
pub proof fn lemma_extracted_is_dead<T: PartialOrd>(before: FibHeap<T>, after: FibHeap<T>)
    requires
        obeys_total_order::<T>(),
        before.wf(),
        is_extraction(before, after),
    ensures
        is_dead(after, before.min_handle()->0),
{
    before.lemma_min_is_least();
}

/// A dead handle stays dead when a value is inserted: the handle that
/// `insert` returns was never given out before.
pub proof fn lemma_dead_after_insert<T: PartialOrd>(
    before: FibHeap<T>,
    after: FibHeap<T>,
    handle: Handle,
    value: T,
    gone: Handle,
)
    requires
        is_dead(before, gone),
        is_insertion(before, after, handle, value),
    ensures
        is_dead(after, gone),
        handle != gone,
{
}

/// A dead handle stays dead through every call that gives no handle out:
/// `extract_min`, `decrease_key` and `clear` add no handle to the heap.
pub proof fn lemma_dead_stays_dead<T: PartialOrd>(
    before: FibHeap<T>,
    after: FibHeap<T>,
    gone: Handle,
)
    requires
        is_dead(before, gone),
        after.issued() == before.issued(),
        after@.dom().subset_of(before@.dom()),
    ensures
        is_dead(after, gone),
{
}

/// After an insertion the minimum does not sort after the value that was
/// put in, nor after the minimum before.
pub proof fn lemma_min_after_insert<T: PartialOrd>(
    before: FibHeap<T>,
    after: FibHeap<T>,
    handle: Handle,
    value: T,
)
    requires
        obeys_total_order::<T>(),
        before.wf(),
        after.wf(),
        is_insertion(before, after, handle, value),
    ensures
        after.min_handle() is Some,
        le(min_value(after), value),
        before.min_handle() is Some ==> le(min_value(after), min_value(before)),
{
    before.lemma_min_is_least();
    after.lemma_min_is_least();
    let m = after.min_handle()->0;
    assert(after@.dom().contains(handle));
    assert(le(after@[m], after@[handle]));
    if before.min_handle() is Some {
        let was = before.min_handle()->0;
        assert(after@.dom().contains(was));
        assert(le(after@[m], after@[was]));
    }
}

} // verus!

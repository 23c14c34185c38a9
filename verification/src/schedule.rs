//! The schedule of the benchmark: the numbers from 0 up are inserted in
//! order, and after each number that is a checkpoint the minimum is
//! extracted. The values that come out count up from 0.
//!
//! The schedule is run here on the heap of this library and on the heap of
//! the `rudac` crate. Timing is left to the caller.
use crate::heap::FibHeap;
use crate::order::{le, lemma_integers_obey_total_order, lt};
use crate::reference::{
    reference_contents, reference_init_min, reference_is_min, reference_pop, reference_push,
};
use crate::store::Handle;
use vstd::prelude::*;

verus! {

/// The last number that the benchmark inserts.
pub const NUM_ENTRIES: u16 = 0x1000;

/// The checkpoints, in ascending order.
pub const EXTRACTS: [u16; 24] = [
    0x10, 0x3f, 0x69, 0x78, 0x100, 0x420, 0x532, 0x548, 0x5a5, 0x62d, 0x7d9, 0x803, 0x817,
    0x860, 0x874, 0x98f, 0x99c, 0xa4d, 0xb90, 0xd1e, 0xd69, 0xe71, 0xed6, 0x1000,
];

/// The number of checkpoints among the numbers below `x`.
pub open spec fn extracts_below(x: int) -> nat
    decreases x,
{
    if x <= 0 {
        0
    } else if EXTRACTS@.contains((x - 1) as u16) {
        extracts_below(x - 1) + 1
    } else {
        extracts_below(x - 1)
    }
}

/// The numbers from 0 up to, not including, `n`.
pub open spec fn counted(n: nat) -> Seq<u16> {
    Seq::new(n, |k: int| k as u16)
}

/// Some handle of the heap has the value `v`.
pub open spec fn holds(heap: Map<Handle, u16>, v: u16) -> bool {
    exists|h: Handle| #[trigger] heap.dom().contains(h) && heap[h] == v
}

/// There are no more checkpoints below a number than numbers.
pub proof fn lemma_extracts_below_bound(x: int)
    requires
        0 <= x,
    ensures
        extracts_below(x) <= x,
    decreases x,
{
    if x > 0 {
        lemma_extracts_below_bound(x - 1);
    }
}

/// Whether `x` is a checkpoint.
pub fn is_checkpoint(x: u16) -> (found: bool)
    ensures
        found == EXTRACTS@.contains(x),
{
    let mut lo: usize = 0;
    let mut hi: usize = 24;
    assert(forall|a: int, b: int| 0 <= a < b < 24 ==> EXTRACTS@[a] < EXTRACTS@[b]);
    while lo < hi
        invariant
            lo <= hi <= 24,
            forall|a: int, b: int| 0 <= a < b < 24 ==> EXTRACTS@[a] < EXTRACTS@[b],
            forall|i: int| 0 <= i < lo ==> EXTRACTS@[i] < x,
            forall|i: int| hi <= i < 24 ==> x < EXTRACTS@[i],
        decreases hi - lo,
    {
        let mid: usize = lo + (hi - lo) / 2;
        let at: u16 = EXTRACTS[mid];
        if at == x {
            assert(EXTRACTS@[mid as int] == x);
            return true;
        } else if at < x {
            lo = mid + 1;
        } else {
            hi = mid;
        }
    }
    false
}

/// Runs the schedule up to the number `last` on a heap of this library, and
/// returns what was extracted, in order.
pub fn feap_round(last: u16) -> (out: Vec<u16>)
    ensures
        out@ == counted(extracts_below(last + 1)),
{
    let mut heap: FibHeap<u16> = FibHeap::new();
    let mut out: Vec<u16> = Vec::new();
    let mut x: u32 = 0;
    proof {
        lemma_integers_obey_total_order();
        assert(out@ =~= counted(0));
    }
    while x <= last as u32
        invariant
            heap.wf(),
            x <= last + 1,
            out@ == counted(extracts_below(x as int)),
            forall|a: u16, b: u16| lt(a, b) <==> a < b,
            crate::order::obeys_total_order::<u16>(),
            forall|h: Handle| #[trigger]
                heap@.dom().contains(h) ==> out@.len() <= heap@[h] < x,
            forall|v: u16| out@.len() <= v < x ==> #[trigger] holds(heap@, v),
            forall|g: Handle, h: Handle|
                heap@.dom().contains(g) && heap@.dom().contains(h) && #[trigger] heap@[g]
                    == #[trigger] heap@[h] ==> g == h,
        decreases last + 1 - x,
    {
        let value: u16 = x as u16;
        let ghost before = heap@;
        proof {
            lemma_extracts_below_bound(x as int);
            heap.lemma_min_is_least();
        }
        let handle = heap.insert(value);
        proof {
            assert forall|v: u16| out@.len() <= v < x + 1 implies #[trigger] holds(heap@, v) by {
                if v == value {
                    assert(heap@.dom().contains(handle) && heap@[handle] == v);
                } else {
                    assert(holds(before, v));
                    let h = choose|h: Handle| #[trigger]
                        before.dom().contains(h) && before[h] == v;
                    assert(heap@.dom().contains(h) && heap@[h] == v);
                }
            }
        }
        if is_checkpoint(value) {
            let ghost full = heap@;
            let ghost next = out@.len() as u16;
            let min = heap.extract_min();
            match min {
                Some(v) => {
                    proof {
                        assert(holds(full, next));
                        let h = choose|h: Handle| #[trigger]
                            full.dom().contains(h) && full[h] == next;
                        assert(le(v, full[h]));
                        assert(v == next);
                        assert forall|w: u16| out@.len() + 1 <= w < x + 1 implies #[trigger] holds(
                            heap@,
                            w,
                        ) by {
                            assert(holds(full, w));
                            let g = choose|g: Handle| #[trigger]
                                full.dom().contains(g) && full[g] == w;
                            assert(heap@.dom().contains(g) && heap@[g] == w);
                        }
                    }
                    out.push(v);
                    proof {
                        assert(out@ =~= counted(extracts_below(x + 1)));
                    }
                },
                None => {
                    proof {
                        assert(full.dom().contains(handle));
                    }
                },
            }
        }
        x += 1;
    }
    out
}

/// Runs the schedule up to the number `last` on a heap of `rudac`, and
/// returns what was popped, in order.
pub fn rudac_round(last: u16) -> (out: Vec<u16>)
    ensures
        out@ == counted(extracts_below(last + 1)),
{
    let mut heap = reference_init_min();
    let mut out: Vec<u16> = Vec::new();
    let mut x: u32 = 0;
    proof {
        assert(out@ =~= counted(0));
    }
    while x <= last as u32
        invariant
            reference_is_min(heap),
            x <= last + 1,
            out@ == counted(extracts_below(x as int)),
            forall|v: u16|
                reference_contents(heap).count(v) == if out@.len() <= v < x {
                    1nat
                } else {
                    0nat
                },
        decreases last + 1 - x,
    {
        let value: u16 = x as u16;
        proof {
            lemma_extracts_below_bound(x as int);
        }
        reference_push(&mut heap, value);
        if is_checkpoint(value) {
            let ghost full = reference_contents(heap);
            let ghost next = out@.len() as u16;
            let min = reference_pop(&mut heap);
            match min {
                Some(v) => {
                    proof {
                        assert(full.count(next) > 0);
                        assert(v == next);
                    }
                    out.push(v);
                    proof {
                        assert(out@ =~= counted(extracts_below(x + 1)));
                    }
                },
                None => {
                    proof {
                        assert(full.count(value) > 0);
                    }
                },
            }
        }
        x += 1;
    }
    out
}

} // verus!

//! The order on values that the heap relies on.
//!
//! The heap compares values with `<` only. What it needs of `<` is stated
//! once, in [`obeys_total_order`], and every contract of the heap speaks of
//! values through [`lt`] and [`le`].
use std::cmp::Ordering;
use vstd::prelude::*;
use vstd::std_specs::cmp::PartialOrdSpec;

verus! {

/// `a` sorts strictly before `b`.
pub open spec fn lt<T: PartialOrd>(a: T, b: T) -> bool {
    a.partial_cmp_spec(&b) == Some(Ordering::Less)
}

/// `a` does not sort after `b`.
pub open spec fn le<T: PartialOrd>(a: T, b: T) -> bool {
    !lt(b, a)
}

/// `<` on `T` is specified, and orders all of `T` in one line: no two values
/// are each before the other, and a value that is before another is before
/// or behind every third. Values that are neither before nor behind one
/// another count as ties.
pub open spec fn obeys_total_order<T: PartialOrd>() -> bool {
    &&& T::obeys_partial_cmp_spec()
    &&& forall|a: T, b: T| #[trigger] lt(a, b) ==> !lt(b, a)
    &&& forall|a: T, b: T, c: T| #![trigger lt(a, b), lt(b, c)] lt(a, c) ==> lt(a, b) || lt(b, c)
}

/// Every value is a tie with itself.
pub proof fn lemma_le_refl<T: PartialOrd>(a: T)
    requires
        obeys_total_order::<T>(),
    ensures
        le(a, a),
{
    if lt(a, a) {
        assert(!lt(a, a));
    }
}

/// `le` is transitive.
pub proof fn lemma_le_trans<T: PartialOrd>(a: T, b: T, c: T)
    requires
        obeys_total_order::<T>(),
        le(a, b),
        le(b, c),
    ensures
        le(a, c),
{
    if lt(c, a) {
        assert(lt(c, b) || lt(b, a));
    }
}

/// A value strictly before another is not after it.
pub proof fn lemma_lt_le<T: PartialOrd>(a: T, b: T)
    requires
        obeys_total_order::<T>(),
        lt(a, b),
    ensures
        le(a, b),
{
}

/// A value before one that is not after a third is before the third.
pub proof fn lemma_lt_le_trans<T: PartialOrd>(a: T, b: T, c: T)
    requires
        obeys_total_order::<T>(),
        lt(a, b),
        le(b, c),
    ensures
        lt(a, c),
{
    assert(lt(a, c) || lt(c, b));
}

/// The primitive integers are totally ordered by `<`, and there `lt` is the
/// usual order.
pub proof fn lemma_integers_obey_total_order()
    ensures
        obeys_total_order::<u8>(),
        obeys_total_order::<u16>(),
        obeys_total_order::<u32>(),
        obeys_total_order::<u64>(),
        obeys_total_order::<u128>(),
        obeys_total_order::<usize>(),
        obeys_total_order::<i8>(),
        obeys_total_order::<i16>(),
        obeys_total_order::<i32>(),
        obeys_total_order::<i64>(),
        obeys_total_order::<i128>(),
        obeys_total_order::<isize>(),
        forall|a: u8, b: u8| lt(a, b) <==> a < b,
        forall|a: u16, b: u16| lt(a, b) <==> a < b,
        forall|a: u32, b: u32| lt(a, b) <==> a < b,
        forall|a: u64, b: u64| lt(a, b) <==> a < b,
        forall|a: u128, b: u128| lt(a, b) <==> a < b,
        forall|a: usize, b: usize| lt(a, b) <==> a < b,
        forall|a: i8, b: i8| lt(a, b) <==> a < b,
        forall|a: i16, b: i16| lt(a, b) <==> a < b,
        forall|a: i32, b: i32| lt(a, b) <==> a < b,
        forall|a: i64, b: i64| lt(a, b) <==> a < b,
        forall|a: i128, b: i128| lt(a, b) <==> a < b,
        forall|a: isize, b: isize| lt(a, b) <==> a < b,
{
}

/// Compares two values with `<`.
pub fn less<T: PartialOrd>(a: &T, b: &T) -> (r: bool)
    requires
        obeys_total_order::<T>(),
    ensures
        r == lt(*a, *b),
{
    *a < *b
}

} // verus!

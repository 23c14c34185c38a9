//! Consolidation: the pass that leaves at most one root of each degree, and
//! `extract_min`, which runs it.
//!
//! The pass walks the roots in order and keeps a table with one place per
//! degree. A root whose place is free takes it. A root whose place is taken
//! is linked with the root that holds it: the one with the greater value
//! becomes the youngest child of the other, and when neither is greater the
//! root that came later becomes the child. The winner has one child more and
//! goes on to the next place.
use crate::heap::degrees::{
    degrees_ok, lemma_degrees_detach, lemma_degrees_link, lemma_degrees_of_root,
    lemma_degrees_remove_single, lemma_degrees_weaken,
};
use crate::heap::weight::{fib, lemma_fib_rises, lemma_weight};
use crate::heap::{min_first, min_ok, ordered, FibHeap};
use crate::order::{
    le, lemma_le_refl, lemma_lt_le, lemma_lt_le_trans, less, lt, obeys_total_order,
};
use crate::timer::{Instrument, NoInstrument, TimerHook};
use crate::store::{
    child_ok, forest_ok, lemma_forest_detach, lemma_forest_link, lemma_same_values_trans,
    lemma_values_remove, lemma_values_same, linked, parent_ok, position, same_values,
    values_by_handle, Handle, NodeModel, Store,
};
use vstd::prelude::*;

verus! {

/// What linking may do to a node that was a root: the node keeps its handle
/// and its value, stays unmarked, and keeps the children it had as the
/// oldest of its children.
pub open spec fn grown<T>(before: NodeModel<T>, after: NodeModel<T>) -> bool {
    &&& after.handle == before.handle
    &&& after.value == before.value
    &&& !after.marked
    &&& before.children.len() <= after.children.len()
    &&& forall|k: int|
        0 <= k < before.children.len() ==> after.children[k] == #[trigger] before.children[k]
}

/// `after` is `before` with some of its roots hung under others: the same
/// slots are filled, a node that had a parent is as it was, and a node that
/// was a root has [`grown`].
pub open spec fn relinked<T>(
    before: Map<usize, NodeModel<T>>,
    after: Map<usize, NodeModel<T>>,
) -> bool {
    &&& forall|i: usize| before.dom().contains(i) <==> after.dom().contains(i)
    &&& forall|i: usize| #[trigger]
        before.dom().contains(i) ==> if before[i].parent is Some {
            after[i] == before[i]
        } else {
            grown(before[i], after[i])
        }
}

/// A forest is itself with nothing linked.
pub proof fn lemma_relinked_refl<T>(nodes: Map<usize, NodeModel<T>>)
    requires
        forest_ok(nodes),
    ensures
        relinked(nodes, nodes),
{
}

/// Linking after linking is linking.
pub proof fn lemma_relinked_trans<T>(
    a: Map<usize, NodeModel<T>>,
    b: Map<usize, NodeModel<T>>,
    c: Map<usize, NodeModel<T>>,
)
    requires
        relinked(a, b),
        relinked(b, c),
    ensures
        relinked(a, c),
{
    assert forall|i: usize| #[trigger] a.dom().contains(i) implies if a[i].parent is Some {
        c[i] == a[i]
    } else {
        grown(a[i], c[i])
    } by {
        assert(b.dom().contains(i));
    }
}

/// Linked forests hold the same values under the same handles.
pub proof fn lemma_relinked_values<T>(a: Map<usize, NodeModel<T>>, b: Map<usize, NodeModel<T>>)
    requires
        relinked(a, b),
    ensures
        same_values(a, b),
        values_by_handle(a) == values_by_handle(b),
{
    assert forall|i: usize| #[trigger] a.dom().contains(i) implies a[i].handle == b[i].handle
        && a[i].value == b[i].value by {}
    lemma_values_same(a, b);
}

/// The forest and its roots after the children of the root `m` have been
/// made roots: `m` has no children, each child it had has no parent and no
/// mark, and the children stand behind the roots, the youngest first.
pub open spec fn promoted<T>(nodes: Map<usize, NodeModel<T>>, roots: Seq<usize>, m: usize) -> (
    Map<usize, NodeModel<T>>,
    Seq<usize>,
) {
    let kids = nodes[m].children;
    (
        Map::new(
            |j: usize| nodes.dom().contains(j),
            |j: usize|
                if j == m {
                    nodes[m].with_children(Seq::empty())
                } else if nodes[j].parent == Some(m) {
                    nodes[j].with_parent(None).with_marked(false)
                } else {
                    nodes[j]
                },
        ),
        roots + Seq::new(kids.len(), |j: int| kids[kids.len() - 1 - j]),
    )
}

/// The forest, its roots and the minimum after the minimum root `m` was
/// taken out: the children of `m` are made roots, `m` leaves the roots and
/// the forest, and what is left is consolidated.
pub open spec fn extraction<T: PartialOrd>(
    nodes: Map<usize, NodeModel<T>>,
    roots: Seq<usize>,
    m: usize,
) -> (Map<usize, NodeModel<T>>, Seq<usize>, Option<usize>) {
    let up = promoted(nodes, roots, m);
    consolidated(up.0.remove(m), up.1.remove(position(up.1, m)))
}

/// What an extraction does to the nodes, whatever the order of the roots:
/// the forest `after` the minimum root `m` was taken out of the forest
/// `before`. The node in slot `m` is gone. A node that was neither a
/// root nor a child of `m` is as it was. Every other node is or was a root
/// in between, and has [`grown`].
pub open spec fn extracted<T>(
    before: Map<usize, NodeModel<T>>,
    after: Map<usize, NodeModel<T>>,
    m: usize,
) -> bool {
    &&& forall|i: usize| after.dom().contains(i) <==> before.dom().contains(i) && i != m
    &&& forall|i: usize| #[trigger]
        after.dom().contains(i) ==> if before[i].parent is Some && before[i].parent != Some(m) {
            after[i] == before[i]
        } else {
            grown(before[i], after[i])
        }
}

/// The number of places in the table of degrees for a heap of `n` nodes:
/// one more than the index of the first Fibonacci number that is not below
/// `n`.
///
/// The `k`-th Fibonacci number is at most the golden ratio to the power of
/// `k - 1`, so this is no less than the logarithm of `n` to the base of
/// the golden ratio, rounded up, plus two. A node with `d` children has at
/// least `fib(d + 2)` nodes at or below it, so such a table has a place
/// for the number of children of every node: see [`lemma_table_fits`].
pub fn degree_table_size(n: usize) -> (size: usize)
    ensures
        is_table_size(n as nat, size as nat),
        size == table_size(n as nat),
{
    let mut k: usize = 0;
    let mut a: u128 = 0;
    let mut b: u128 = 1;
    proof {
        lemma_fib_small();
    }
    while a < n as u128
        invariant
            a == fib(k as nat),
            b == fib((k + 1) as nat),
            a <= b <= 2 * a + 1,
            k >= 1 ==> fib((k - 1) as nat) < n,
            k >= 1 ==> a >= 1,
            k >= 2 ==> b >= a + 1,
            k <= 5 || k + 2 <= a,
            k <= 6 || k < n,
            fib(5) == 5,
            fib(6) == 8,
            b >= 1,
        decreases 0x8_0000_0000_0000_0000 - a - b,
    {
        let next: u128 = a + b;
        a = b;
        b = next;
        k += 1;
    }
    proof {
        lemma_table_size(n as nat, (k + 1) as nat);
    }
    k + 1
}

/// The first few Fibonacci numbers.
proof fn lemma_fib_small()
    ensures
        fib(2) == 1,
        fib(3) == 2,
        fib(4) == 3,
        fib(5) == 5,
        fib(6) == 8,
{
    assert(fib(0) == 0);
    assert(fib(1) == 1);
    assert(fib(2) == 1);
    assert(fib(3) == 2);
    assert(fib(4) == 3);
    assert(fib(5) == 5);
    assert(fib(6) == 8);
}

/// The number of places in the table of degrees for a heap of `n` nodes:
/// one more than the index of the first Fibonacci number that is not below
/// `n`.
pub open spec fn table_size(n: nat) -> nat {
    choose|size: nat| is_table_size(n, size)
}

/// `size` is one more than the index of the first Fibonacci number that is
/// not below `n`.
pub open spec fn is_table_size(n: nat, size: nat) -> bool {
    &&& size >= 1
    &&& n <= fib((size - 1) as nat)
    &&& size >= 2 ==> fib((size - 2) as nat) < n
}

/// There is one such number only.
pub proof fn lemma_table_size(n: nat, size: nat)
    requires
        is_table_size(n, size),
    ensures
        table_size(n) == size,
{
    let other = table_size(n);
    if other < size {
        lemma_fib_rises((other - 1) as nat, (size - 2) as nat);
    } else if size < other {
        lemma_fib_rises((size - 1) as nat, (other - 2) as nat);
    }
}

/// How many places of the table are taken.
pub open spec fn taken(table: Seq<Option<usize>>) -> nat
    decreases table.len(),
{
    if table.len() == 0 {
        0
    } else if table.last() is Some {
        taken(table.drop_last()) + 1
    } else {
        taken(table.drop_last())
    }
}

/// A place that is freed is one place less taken.
pub proof fn lemma_taken_less(table: Seq<Option<usize>>, d: int)
    requires
        0 <= d < table.len(),
        table[d] is Some,
    ensures
        taken(table.update(d, None)) + 1 == taken(table),
    decreases table.len(),
{
    let after = table.update(d, None);
    if d == table.len() - 1 {
        assert(after.drop_last() =~= table.drop_last());
    } else {
        assert(after.drop_last() =~= table.drop_last().update(d, None));
        lemma_taken_less(table.drop_last(), d);
    }
}

/// The forest and the table after the root `x` has found its place. If the
/// place for the number of children of `x` is free, `x` takes it. If a root
/// holds it, the place is freed and the two are linked: the root that was
/// there hangs itself under `x` if the value of `x` sorts strictly before
/// its own, else `x` under it; and the one on top goes on to find its
/// place.
pub open spec fn placed<T: PartialOrd>(
    nodes: Map<usize, NodeModel<T>>,
    table: Seq<Option<usize>>,
    x: usize,
) -> (Map<usize, NodeModel<T>>, Seq<Option<usize>>)
    decreases taken(table),
{
    let d = nodes[x].children.len() as int;
    if d >= table.len() {
        (nodes, table)
    } else {
        match table[d] {
            None => (nodes, table.update(d, Some(x))),
            Some(y) => {
                let (child, parent) = if lt(nodes[x].value, nodes[y].value) {
                    (y, x)
                } else {
                    (x, y)
                };
                proof {
                    lemma_taken_less(table, d);
                }
                placed(linked(nodes, child, parent), table.update(d, None), parent)
            },
        }
    }
}

/// The forest and the table after the roots from `from` on have found
/// their places, one after the other.
pub open spec fn passed<T: PartialOrd>(
    nodes: Map<usize, NodeModel<T>>,
    table: Seq<Option<usize>>,
    roots: Seq<usize>,
    from: int,
) -> (Map<usize, NodeModel<T>>, Seq<Option<usize>>)
    decreases roots.len() - from,
{
    if 0 <= from < roots.len() {
        let next = placed(nodes, table, roots[from]);
        passed(next.0, next.1, roots, from + 1)
    } else {
        (nodes, table)
    }
}

/// The roots that hold the places of the table, in the order of the places.
pub open spec fn holders(table: Seq<Option<usize>>) -> Seq<usize>
    decreases table.len(),
{
    if table.len() == 0 {
        Seq::empty()
    } else if table.last() is Some {
        holders(table.drop_last()).push(table.last()->0)
    } else {
        holders(table.drop_last())
    }
}

/// The first of the smallest of `roots`: the first that no other sorts
/// before.
pub open spec fn first_least<T: PartialOrd>(
    nodes: Map<usize, NodeModel<T>>,
    roots: Seq<usize>,
) -> Option<usize>
    decreases roots.len(),
{
    if roots.len() == 0 {
        None
    } else {
        match first_least(nodes, roots.drop_last()) {
            Some(m) if !lt(nodes[roots.last()].value, nodes[m].value) => Some(m),
            _ => Some(roots.last()),
        }
    }
}

/// The forest, its roots and the minimum after a consolidation: the roots
/// find their places in a table that is free at first, in the order in
/// which they stand; the roots are then those that hold places, in the
/// order of the places; and the minimum is the first of the smallest.
pub open spec fn consolidated<T: PartialOrd>(
    nodes: Map<usize, NodeModel<T>>,
    roots: Seq<usize>,
) -> (Map<usize, NodeModel<T>>, Seq<usize>, Option<usize>) {
    let free = Seq::new(table_size(nodes.dom().len()), |d: int| None::<usize>);
    let done = passed(nodes, free, roots, 0);
    (done.0, holders(done.1), first_least(done.0, holders(done.1)))
}

/// A table of `size` places is large enough for a forest of `n` nodes.
pub open spec fn table_fits(size: nat, n: nat) -> bool {
    size >= 1 && n <= fib((size - 1) as nat)
}

/// A table that is large enough for the forest has a place for the number
/// of children of every node.
pub proof fn lemma_table_fits<T>(store: Store<T>, x: usize, size: nat)
    requires
        store.ok(),
        degrees_ok(store.nodes(), None),
        store.nodes().dom().contains(x),
        table_fits(size, store.nodes().dom().len()),
    ensures
        store.nodes()[x].children.len() < size,
{
    let d = store.nodes()[x].children.len();
    lemma_weight(store, x);
    if d >= size {
        lemma_fib_rises(size + 2, d + 2);
        lemma_fib_rises((size - 1) as nat, size + 1);
        lemma_fib_rises(1, size);
        assert(fib(1) == 1);
        assert(fib(size + 2) == fib(size + 1) + fib(size));
    }
}

/// The root `i` is still to come: it stands at or behind `from` in `roots`.
spec fn awaits(roots: Seq<usize>, from: int, i: usize) -> bool {
    exists|k: int| from <= k < roots.len() && #[trigger] roots[k] == i
}

/// The root `i` holds the place of its degree in `table`.
spec fn in_table<T>(
    nodes: Map<usize, NodeModel<T>>,
    table: Seq<Option<usize>>,
    i: usize,
) -> bool {
    nodes[i].children.len() < table.len() && table[nodes[i].children.len() as int] == Some(i)
}

/// Each place of `table` that is taken holds a root with as many children as
/// the place says, and one that is not still to come.
spec fn table_ok<T>(
    nodes: Map<usize, NodeModel<T>>,
    table: Seq<Option<usize>>,
    roots: Seq<usize>,
    from: int,
) -> bool {
    forall|d: int|
        0 <= d < table.len() && (#[trigger] table[d]) is Some ==> {
            let r = table[d]->0;
            &&& nodes.dom().contains(r)
            &&& nodes[r].parent is None
            &&& nodes[r].children.len() == d
            &&& !awaits(roots, from, r)
        }
}

/// The roots that are still to come are roots.
spec fn pending_ok<T>(nodes: Map<usize, NodeModel<T>>, roots: Seq<usize>, from: int) -> bool {
    forall|k: int|
        from <= k < roots.len() ==> nodes.dom().contains(#[trigger] roots[k])
            && nodes[roots[k]].parent is None
}

/// Every root but `carried` is still to come or holds a place in the table.
spec fn all_placed<T>(
    nodes: Map<usize, NodeModel<T>>,
    table: Seq<Option<usize>>,
    roots: Seq<usize>,
    from: int,
    carried: Option<usize>,
) -> bool {
    forall|i: usize| #[trigger]
        nodes.dom().contains(i) && nodes[i].parent is None && Some(i) != carried ==> awaits(
            roots,
            from,
            i,
        ) || in_table(nodes, table, i)
}

impl<T: PartialOrd> FibHeap<T> {
    /// Where the pass stands: the roots from `from` on are still to come,
    /// `carried` is in hand, and every other root holds a place in `table`.
    spec fn pass_ok(&self, table: Seq<Option<usize>>, from: int, carried: Option<usize>) -> bool {
        let nodes = self.store.nodes();
        &&& self.store.ok()
        &&& ordered(nodes, None)
        &&& degrees_ok(nodes, None)
        &&& table_fits(table.len(), nodes.dom().len())
        &&& 0 <= from <= self.roots@.len()
        &&& self.roots@.no_duplicates()
        &&& pending_ok(nodes, self.roots@, from)
        &&& table_ok(nodes, table, self.roots@, from)
        &&& all_placed(nodes, table, self.roots@, from, carried)
        &&& match carried {
            Some(x) => nodes.dom().contains(x) && nodes[x].parent is None && !awaits(
                self.roots@,
                from,
                x,
            ) && !in_table(nodes, table, x),
            None => true,
        }
    }

    /// One step of the pass for the root `x`, which has `d` children. If
    /// the place `d` of the table is free, `x` takes it. If the root `y`
    /// holds it, the place is freed and the two are linked: `y` hangs itself
    /// under `x` if the value of `x` sorts strictly before its own, else
    /// `x` under `y`. Returns the root that came out on top and still
    /// needs a place, if the two were linked.
    fn insert_root_list<I: Instrument>(
        &mut self,
        table: &mut Vec<Option<usize>>,
        x: usize,
        from: usize,
        instrument: &mut I,
    ) -> (carried: Option<usize>)
        requires
            obeys_total_order::<T>(),
            old(self).pass_ok(old(table)@, from as int, Some(x)),
        ensures
            final(self).pass_ok(final(table)@, from as int, carried),
            final(self).roots == old(self).roots,
            final(self).min == old(self).min,
            final(self).eager_threshold == old(self).eager_threshold,
            final(self).store.issued() == old(self).store.issued(),
            relinked(old(self).store.nodes(), final(self).store.nodes()),
            old(self).store.nodes()[x].children.len() < old(table)@.len(),
            match old(table)@[old(self).store.nodes()[x].children.len() as int] {
                None => {
                    &&& carried is None
                    &&& final(self).store.nodes() == old(self).store.nodes()
                    &&& final(table)@ == old(table)@.update(
                        old(self).store.nodes()[x].children.len() as int,
                        Some(x),
                    )
                },
                Some(y) => {
                    let nodes = old(self).store.nodes();
                    let (child, parent) = if lt(nodes[x].value, nodes[y].value) {
                        (y, x)
                    } else {
                        (x, y)
                    };
                    &&& carried == Some(parent)
                    &&& final(self).store.nodes() == linked(nodes, child, parent)
                    &&& final(table)@ == old(table)@.update(nodes[x].children.len() as int, None)
                    &&& final(self).store.nodes()[parent].children.len() == nodes[x].children.len()
                        + 1
                },
            },
    {
        let ghost nodes = self.store.nodes();
        let ghost roots = self.roots@;
        proof {
            self.store.lemma_ok();
            lemma_relinked_refl(nodes);
        }
        let d = self.store.degree(x);
        proof {
            lemma_table_fits(self.store, x, table@.len());
        }
        let ghost t0 = table@;
        match table[d] {
            None => {
                instrument.begin(TimerHook::FastRootListInsert);
                table[d] = Some(x);
                instrument.end(TimerHook::FastRootListInsert);
                proof {
                    assert forall|i: usize| #[trigger]
                        nodes.dom().contains(i) && nodes[i].parent is None implies awaits(
                        roots,
                        from as int,
                        i,
                    ) || in_table(nodes, table@, i) by {
                        if i != x && in_table(nodes, t0, i) {
                            assert(table@[nodes[i].children.len() as int] == Some(i));
                        }
                    }
                    assert forall|e: int|
                        0 <= e < table@.len() && (#[trigger] table@[e]) is Some implies {
                        let r = table@[e]->0;
                        &&& nodes.dom().contains(r)
                        &&& nodes[r].parent is None
                        &&& nodes[r].children.len() == e
                        &&& !awaits(roots, from as int, r)
                    } by {
                        if e != d {
                            assert(table@[e] == t0[e]);
                        }
                    }
                    assert(table@ =~= t0.update(d as int, Some(x)));
                }
                None
            },
            Some(y) => {
                assert(t0[d as int] is Some);
                instrument.begin(TimerHook::SlowRootListInsert);
                table[d] = None;
                let x_first = less(self.store.value(x), self.store.value(y));
                let (child, parent) = if x_first {
                    (y, x)
                } else {
                    (x, y)
                };
                self.store.link(child, parent);
                instrument.end(TimerHook::SlowRootListInsert);
                proof {
                    let after = self.store.nodes();
                    self.store.lemma_ok();
                    if x_first {
                        lemma_lt_le(nodes[x].value, nodes[y].value);
                    }
                    assert(le(nodes[parent].value, nodes[child].value));
                    assert forall|c: usize| #[trigger]
                        after.dom().contains(c) && after[c].parent is Some implies le(
                        after[after[c].parent->0].value,
                        after[c].value,
                    ) by {
                        if c != child {
                            assert(nodes.dom().contains(c));
                        }
                    }
                    assert forall|k: int| from <= k < roots.len() implies after.dom().contains(
                        #[trigger] roots[k],
                    ) && after[roots[k]].parent is None by {
                        assert(nodes.dom().contains(roots[k]));
                        assert(roots[k] != x);
                        assert(roots[k] != y);
                    }
                    assert forall|e: int|
                        0 <= e < table@.len() && (#[trigger] table@[e]) is Some implies {
                        let r = table@[e]->0;
                        &&& after.dom().contains(r)
                        &&& after[r].parent is None
                        &&& after[r].children.len() == e
                        &&& !awaits(roots, from as int, r)
                    } by {
                        assert(table@[e] == t0[e]);
                        let r = t0[e]->0;
                        assert(r != y);
                        assert(r != x);
                    }
                    assert forall|i: usize| #[trigger]
                        after.dom().contains(i) && after[i].parent is None && i
                        != parent implies awaits(roots, from as int, i) || in_table(
                        after,
                        table@,
                        i,
                    ) by {
                        assert(nodes.dom().contains(i));
                        assert(i != child);
                        if in_table(nodes, t0, i) {
                            assert(table@[nodes[i].children.len() as int] == Some(i));
                        }
                    }
                    assert(!in_table(after, table@, parent)) by {
                        if in_table(after, table@, parent) {
                            assert(t0[d + 1] is Some);
                        }
                    }
                    assert(relinked(nodes, after)) by {
                        lemma_forest_link(nodes, child, parent);
                    }
                    assert(after.dom() =~= nodes.dom());
                    lemma_degrees_link(nodes, child, parent);
                    assert(table@ =~= t0.update(d as int, None));
                }
                Some(parent)
            },
        }
    }

    /// Gives the root `x` a place in the table, linking it with the roots
    /// that hold the places it comes to until one is free.
    fn place<I: Instrument>(
        &mut self,
        table: &mut Vec<Option<usize>>,
        x: usize,
        from: usize,
        instrument: &mut I,
    )
        requires
            obeys_total_order::<T>(),
            old(self).pass_ok(old(table)@, from as int, Some(x)),
        ensures
            final(self).pass_ok(final(table)@, from as int, None),
            (final(self).store.nodes(), final(table)@) == placed(
                old(self).store.nodes(),
                old(table)@,
                x,
            ),
            final(self).roots == old(self).roots,
            final(self).min == old(self).min,
            final(self).eager_threshold == old(self).eager_threshold,
            final(self).store.issued() == old(self).store.issued(),
            relinked(old(self).store.nodes(), final(self).store.nodes()),
    {
        let ghost start = self.store.nodes();
        let ghost given = table@;
        let ghost first = x;
        let mut x = x;
        proof {
            self.store.lemma_ok();
            lemma_relinked_refl(start);
        }
        instrument.begin(TimerHook::InnerMergingLoop);
        loop
            invariant_except_break
                self.pass_ok(table@, from as int, Some(x)),
                placed(start, given, first) == placed(self.store.nodes(), table@, x),
            invariant
                obeys_total_order::<T>(),
                self.roots == old(self).roots,
                self.min == old(self).min,
                self.eager_threshold == old(self).eager_threshold,
                self.store.issued() == old(self).store.issued(),
                relinked(start, self.store.nodes()),
            ensures
                self.pass_ok(table@, from as int, None),
                (self.store.nodes(), table@) == placed(start, given, first),
            decreases usize::MAX - self.store.nodes()[x].children.len(),
        {
            let ghost nodes = self.store.nodes();
            let d = self.store.degree(x);
            let carried = self.insert_root_list(table, x, from, instrument);
            proof {
                lemma_relinked_trans(start, nodes, self.store.nodes());
            }
            match carried {
                Some(winner) => {
                    let e = self.store.degree(winner);
                    assert(e == d + 1);
                    x = winner;
                },
                None => {
                    break ;
                },
            }
        }
        instrument.end(TimerHook::InnerMergingLoop);
    }
}

/// A table of `size` places, all of them free.
fn free_table(size: usize) -> (table: Vec<Option<usize>>)
    ensures
        table@ == Seq::new(size as nat, |d: int| None::<usize>),
{
    let mut table: Vec<Option<usize>> = Vec::new();
    while table.len() < size
        invariant
            table@.len() <= size,
            forall|d: int| 0 <= d < table@.len() ==> table@[d] is None,
        decreases size - table.len(),
    {
        table.push(None);
    }
    assert(table@ =~= Seq::new(size as nat, |d: int| None::<usize>));
    table
}

impl<T: PartialOrd> FibHeap<T> {
    /// The pass: gives every root a place in the table, in the order in
    /// which the roots stand.
    fn pass<I: Instrument>(&mut self, table: &mut Vec<Option<usize>>, instrument: &mut I)
        requires
            obeys_total_order::<T>(),
            old(self).wf_roots(None),
            degrees_ok(old(self).store.nodes(), None),
            table_fits(old(table)@.len(), old(self).store.nodes().dom().len()),
            forall|d: int| 0 <= d < old(table)@.len() ==> old(table)@[d] is None,
        ensures
            final(self).pass_ok(final(table)@, final(self).roots@.len() as int, None),
            (final(self).store.nodes(), final(table)@) == passed(
                old(self).store.nodes(),
                old(table)@,
                old(self).roots@,
                0,
            ),
            final(self).roots == old(self).roots,
            final(self).eager_threshold == old(self).eager_threshold,
            final(self).store.issued() == old(self).store.issued(),
            relinked(old(self).store.nodes(), final(self).store.nodes()),
    {
        let ghost start = self.store.nodes();
        let ghost free = table@;
        let ghost waiting = self.roots@;
        let mut cur: usize = 0;
        instrument.begin(TimerHook::MergingHook);
        proof {
            lemma_relinked_refl(start);
            assert forall|i: usize| #[trigger]
                start.dom().contains(i) && start[i].parent is None implies awaits(
                self.roots@,
                0,
                i,
            ) by {
                let k = choose|k: int| 0 <= k < self.roots@.len() && self.roots@[k] == i;
                assert(self.roots@[k] == i);
            }
        }
        while cur < self.roots.len()
            invariant
                obeys_total_order::<T>(),
                self.roots == old(self).roots,
                self.roots@ == waiting,
                cur <= waiting.len(),
                passed(start, free, waiting, 0) == passed(
                    self.store.nodes(),
                    table@,
                    waiting,
                    cur as int,
                ),
                self.pass_ok(table@, cur as int, None),
                self.eager_threshold == old(self).eager_threshold,
                self.store.issued() == old(self).store.issued(),
                relinked(start, self.store.nodes()),
            decreases self.roots.len() - cur,
        {
            let x = self.roots[cur];
            let ghost nodes = self.store.nodes();
            let ghost roots = self.roots@;
            proof {
                assert(awaits(roots, cur as int, x));
                assert(!awaits(roots, cur + 1, x)) by {
                    if awaits(roots, cur + 1, x) {
                        let k = choose|k: int| cur + 1 <= k < roots.len() && roots[k] == x;
                        assert(roots[k] == roots[cur as int]);
                    }
                }
                assert(!in_table(nodes, table@, x)) by {
                    if in_table(nodes, table@, x) {
                        assert(table@[nodes[x].children.len() as int] is Some);
                    }
                }
                assert forall|d: int| 0 <= d < table@.len() && (#[trigger] table@[d]) is Some implies {
                    let r = table@[d]->0;
                    &&& nodes.dom().contains(r)
                    &&& nodes[r].parent is None
                    &&& nodes[r].children.len() == d
                    &&& !awaits(roots, cur + 1, r)
                } by {
                    let r = table@[d]->0;
                    if awaits(roots, cur + 1, r) {
                        let k = choose|k: int| cur + 1 <= k < roots.len() && roots[k] == r;
                        assert(roots[k] == r);
                        assert(awaits(roots, cur as int, r));
                    }
                }
                assert forall|i: usize| #[trigger]
                    nodes.dom().contains(i) && nodes[i].parent is None && i != x implies awaits(
                    roots,
                    cur + 1,
                    i,
                ) || in_table(nodes, table@, i) by {
                    if awaits(roots, cur as int, i) {
                        let k = choose|k: int| cur <= k < roots.len() && roots[k] == i;
                        assert(roots[k] == i);
                        assert(k != cur);
                    }
                }
            }
            self.place(table, x, cur + 1, instrument);
            proof {
                lemma_relinked_trans(start, nodes, self.store.nodes());
            }
            cur += 1;
        }
        instrument.end(TimerHook::MergingHook);
    }

    /// Makes the roots that hold the places of the table the roots of the
    /// heap, in the order of the places, and the first of the smallest of
    /// them the minimum.
    fn rebuild<I: Instrument>(&mut self, table: &Vec<Option<usize>>, instrument: &mut I)
        requires
            obeys_total_order::<T>(),
            old(self).pass_ok(table@, old(self).roots@.len() as int, None),
        ensures
            final(self).wf(),
            final(self).store == old(self).store,
            final(self).eager_threshold == old(self).eager_threshold,
            final(self).roots@ == holders(table@),
            final(self).min == first_least(final(self).store.nodes(), final(self).roots@),
            final(self).is_consolidated(),
            min_first(final(self).store.nodes(), final(self).roots@, final(self).min),
    {
        let ghost nodes = self.store.nodes();
        proof {
            assert forall|i: usize| #[trigger]
                nodes.dom().contains(i) && nodes[i].parent is None implies in_table(
                nodes,
                table@,
                i,
            ) by {
                if awaits(self.roots@, self.roots@.len() as int, i) {
                    let k = choose|k: int|
                        self.roots@.len() <= k < self.roots@.len() && self.roots@[k] == i;
                    assert(false);
                }
            }
        }
        instrument.begin(TimerHook::UpdatingHook);
        self.roots.clear();
        self.min = None;
        let mut d: usize = 0;
        let ghost mut at: int = 0;
        proof {
            assert(table@.take(0) =~= Seq::<Option<usize>>::empty());
        }
        while d < table.len()
            invariant
                self.roots@ == holders(table@.take(d as int)),
                self.min == first_least(nodes, self.roots@),
                self.min matches Some(m) ==> 0 <= at < self.roots@.len() && self.roots@[at] == m
                    && forall|k: int|
                    0 <= k < at ==> lt(nodes[m].value, nodes[#[trigger] self.roots@[k]].value),
                obeys_total_order::<T>(),
                d <= table@.len(),
                self.store == old(self).store,
                self.store.nodes() == nodes,
                self.eager_threshold == old(self).eager_threshold,
                forall|e: int|
                    0 <= e < table@.len() && (#[trigger] table@[e]) is Some ==> nodes.dom().contains(
                        table@[e]->0,
                    ) && nodes[table@[e]->0].parent is None && nodes[table@[e]->0].children.len()
                        == e,
                forall|k: int|
                    0 <= k < self.roots@.len() ==> nodes.dom().contains(#[trigger] self.roots@[k])
                        && nodes[self.roots@[k]].parent is None
                        && nodes[self.roots@[k]].children.len() < d,
                forall|j: int, k: int|
                    0 <= j < k < self.roots@.len() ==> nodes[self.roots@[j]].children.len()
                        < nodes[self.roots@[k]].children.len(),
                forall|e: int|
                    0 <= e < d && (#[trigger] table@[e]) is Some ==> self.roots@.contains(
                        table@[e]->0,
                    ),
                min_ok(nodes, self.roots@, self.min),
            decreases table.len() - d,
        {
            let ghost before = self.roots@;
            let ghost old_min = self.min;
            proof {
                assert(table@.take(d + 1).drop_last() =~= table@.take(d as int));
            }
            match table[d] {
                Some(r) => {
                    let better = match self.min {
                        None => true,
                        Some(m) => {
                            proof {
                                let n = choose|n: int| 0 <= n < before.len() && before[n] == m;
                                assert(nodes.dom().contains(before[n]));
                            }
                            less(self.store.value(r), self.store.value(m))
                        },
                    };
                    if better {
                        self.min = Some(r);
                    }
                    self.roots.push(r);
                    proof {
                        let after = self.roots@;
                        assert(after[before.len() as int] == r);
                        assert(after.drop_last() =~= before);
                        if better {
                            at = before.len() as int;
                            assert forall|k: int| 0 <= k < at implies lt(
                                nodes[r].value,
                                nodes[#[trigger] after[k]].value,
                            ) by {
                                assert(after[k] == before[k]);
                                lemma_lt_le_trans(
                                    nodes[r].value,
                                    nodes[old_min->0].value,
                                    nodes[before[k]].value,
                                );
                            }
                        } else {
                            assert forall|k: int| 0 <= k < at implies lt(
                                nodes[old_min->0].value,
                                nodes[#[trigger] after[k]].value,
                            ) by {
                                assert(after[k] == before[k]);
                            }
                        }
                        assert forall|e: int|
                            0 <= e < d + 1 && (#[trigger] table@[e]) is Some implies after.contains(
                            table@[e]->0,
                        ) by {
                            if e < d {
                                let n = choose|n: int|
                                    0 <= n < before.len() && before[n] == table@[e]->0;
                                assert(after[n] == table@[e]->0);
                            }
                        }
                        let m = self.min->0;
                        if !better {
                            let n = choose|n: int| 0 <= n < before.len() && before[n] == m;
                            assert(after[n] == m);
                        }
                        assert forall|k: int| 0 <= k < after.len() implies le(
                            nodes[m].value,
                            nodes[#[trigger] after[k]].value,
                        ) by {
                            if k == before.len() {
                                if better {
                                    lemma_le_refl(nodes[r].value);
                                }
                            } else {
                                assert(after[k] == before[k]);
                                if better {
                                    let was = old_min->0;
                                    lemma_lt_le_trans(
                                        nodes[r].value,
                                        nodes[was].value,
                                        nodes[before[k]].value,
                                    );
                                    lemma_lt_le(nodes[r].value, nodes[before[k]].value);
                                }
                            }
                        }
                    }
                },
                None => {},
            }
            d += 1;
        }
        instrument.end(TimerHook::UpdatingHook);
        proof {
            self.store.lemma_ok();
            let roots = self.roots@;
            assert(roots.no_duplicates()) by {
                assert forall|j: int, k: int| 0 <= j < roots.len() && 0 <= k < roots.len() && j
                    != k implies roots[j] != roots[k] by {
                    if j < k {
                        assert(nodes[roots[j]].children.len() < nodes[roots[k]].children.len());
                    } else {
                        assert(nodes[roots[k]].children.len() < nodes[roots[j]].children.len());
                    }
                }
            }
            assert forall|i: usize| #[trigger]
                nodes.dom().contains(i) && nodes[i].parent is None implies roots.contains(i) by {
                assert(in_table(nodes, table@, i));
                assert(table@[nodes[i].children.len() as int] is Some);
            }
            if self.min is Some {
                assert(position(roots, self.min->0) == at);
            }
            assert(table@.take(table@.len() as int) =~= table@);
        }
    }

    /// Links roots until no two of them have the same number of children,
    /// and finds the minimum anew: the first of the smallest roots, in the
    /// order of their numbers of children.
    pub(super) fn consolidate<I: Instrument>(&mut self, instrument: &mut I)
        requires
            obeys_total_order::<T>(),
            old(self).wf_roots(None),
            degrees_ok(old(self).forest(), None),
        ensures
            final(self).wf(),
            (final(self).forest(), final(self).roots(), final(self).min_slot()) == consolidated(
                old(self).forest(),
                old(self).roots(),
            ),
            final(self).is_consolidated(),
            min_first(final(self).forest(), final(self).roots(), final(self).min_slot()),
            relinked(old(self).forest(), final(self).forest()),
            final(self)@ == old(self)@,
            final(self).issued() == old(self).issued(),
            final(self).threshold() == old(self).threshold(),
    {
        let ghost start = self.store.nodes();
        let size = degree_table_size(self.store.len());
        proof {
            self.store.lemma_node_count();
        }
        let mut table = free_table(size);
        self.pass(&mut table, instrument);
        self.rebuild(&table, instrument);
        proof {
            lemma_relinked_values(start, self.store.nodes());
        }
    }
}

impl<T: PartialOrd> FibHeap<T> {
    /// Makes every child of the minimum root a root of its own, youngest
    /// first. The minimum stays the minimum.
    fn promote_children<I: Instrument>(&mut self, m: usize, instrument: &mut I)
        requires
            obeys_total_order::<T>(),
            old(self).wf(),
            old(self).min == Some(m),
        ensures
            final(self).wf(),
            final(self).min == Some(m),
            final(self).store.nodes().dom().contains(m),
            final(self).eager_threshold == old(self).eager_threshold,
            final(self).store.issued() == old(self).store.issued(),
            same_values(old(self).store.nodes(), final(self).store.nodes()),
            (final(self).store.nodes(), final(self).roots@) == promoted(
                old(self).store.nodes(),
                old(self).roots@,
                m,
            ),
    {
        let ghost start = self.store.nodes();
        let ghost start_roots = self.roots@;
        let ghost young = start[m].children;
        proof {
            let n = choose|n: int| 0 <= n < self.roots@.len() && self.roots@[n] == m;
            assert(start.dom().contains(self.roots@[n]));
            assert(start[m].children.take(start[m].children.len() as int) =~= start[m].children);
            self.store.lemma_ok();
            assert forall|j: usize| #[trigger] start.dom().contains(j) && j != m && start[j].parent
                == Some(m) implies start[m].children.contains(j) by {
                assert(parent_ok(start, j, m));
            }
        }
        instrument.begin(TimerHook::RemoveChildHook);
        loop
            invariant
                obeys_total_order::<T>(),
                self.wf(),
                self.min == Some(m),
                self.store.nodes().dom().contains(m),
                self.eager_threshold == old(self).eager_threshold,
                self.store.issued() == old(self).store.issued(),
                same_values(start, self.store.nodes()),
                self.store.nodes()[m].children.len() <= start[m].children.len(),
                self.store.nodes()[m] == start[m].with_children(
                    start[m].children.take(self.store.nodes()[m].children.len() as int),
                ),
                forall|j: usize| #[trigger]
                    start.dom().contains(j) && j != m ==> self.store.nodes()[j] == if start[j].parent
                        == Some(m) && !self.store.nodes()[m].children.contains(j) {
                        start[j].with_parent(None).with_marked(false)
                    } else {
                        start[j]
                    },
                young == start[m].children,
                self.roots@.len() == start_roots.len() + young.len()
                    - self.store.nodes()[m].children.len(),
                forall|k: int| 0 <= k < start_roots.len() ==> self.roots@[k] == start_roots[k],
                forall|k: int|
                    start_roots.len() <= k < self.roots@.len() ==> #[trigger] self.roots@[k]
                        == young[young.len() - 1 - (k - start_roots.len())],
            ensures
                self.store.nodes()[m].children.len() == 0,
            decreases self.store.nodes()[m].children.len(),
        {
            let ghost nodes = self.store.nodes();
            let ghost roots = self.roots@;
            let c = match self.store.last_child(m) {
                Some(c) => c,
                None => {
                    break ;
                },
            };
            proof {
                self.store.lemma_ok();
                assert(child_ok(nodes, m, nodes[m].children[nodes[m].children.len() - 1]));
                assert(le(nodes[m].value, nodes[c].value));
            }
            self.store.detach(c);
            proof {
                let after = self.store.nodes();
                lemma_forest_detach(nodes, c);
                assert forall|j: usize| #[trigger]
                    after.dom().contains(j) && after[j].parent is Some implies le(
                    after[after[j].parent->0].value,
                    after[j].value,
                ) by {
                    assert(nodes.dom().contains(j));
                }
                assert forall|n: int| 0 <= n < roots.len() implies after.dom().contains(
                    #[trigger] roots[n],
                ) && after[roots[n]].parent is None && after[roots[n]].value
                    == nodes[roots[n]].value by {
                    assert(nodes.dom().contains(roots[n]));
                }
                if roots.contains(c) {
                    let n = choose|n: int| 0 <= n < roots.len() && roots[n] == c;
                    assert(nodes.dom().contains(roots[n]));
                }
                assert forall|j: usize| #[trigger]
                    after.dom().contains(j) && after[j].parent is None && j
                    != c implies roots.contains(j) by {
                    assert(nodes.dom().contains(j));
                }
                lemma_same_values_trans(start, nodes, after);
                lemma_degrees_weaken(nodes, Some(c));
                lemma_degrees_detach(nodes, c);
                lemma_degrees_of_root(after, m);
                let kids = nodes[m].children;
                let last = kids.len() - 1;
                assert(position(kids, c) == last);
                assert(kids.remove(last) =~= start[m].children.take(last));
                assert(after[m].children == kids.remove(last));
                assert forall|j: usize| #[trigger] start.dom().contains(j) && j != m implies after[j]
                    == if start[j].parent == Some(m) && !after[m].children.contains(j) {
                    start[j].with_parent(None).with_marked(false)
                } else {
                    start[j]
                } by {
                    assert(nodes.dom().contains(j));
                    if j == c {
                        assert(!after[m].children.contains(c));
                    } else if kids.contains(j) {
                        let k = choose|k: int| 0 <= k < kids.len() && kids[k] == j;
                        assert(after[m].children[k] == j);
                    } else if after[m].children.contains(j) {
                        let k = choose|k: int|
                            0 <= k < after[m].children.len() && after[m].children[k] == j;
                        assert(kids[k] == j);
                    }
                }
            }
            self.add_root(c);
            proof {
                let t = nodes[m].children.len();
                assert(nodes[m].children == young.take(t as int));
                assert(c == young[t - 1]);
                assert(self.roots@ == roots.push(c));
                assert forall|k: int| 0 <= k < start_roots.len() implies self.roots@[k]
                    == start_roots[k] by {
                    assert(self.roots@[k] == roots[k]);
                }
                assert forall|k: int|
                    start_roots.len() <= k < self.roots@.len() implies #[trigger] self.roots@[k]
                    == young[young.len() - 1 - (k - start_roots.len())] by {
                    if k < roots.len() {
                        assert(self.roots@[k] == roots[k]);
                    }
                }
            }
        }
        instrument.end(TimerHook::RemoveChildHook);
        proof {
            assert(start[m].children.take(0) =~= Seq::<usize>::empty());
            let up = promoted(start, start_roots, m);
            assert(self.roots@ =~= up.1);
            assert(self.store.nodes() =~= up.0);
        }
    }

    /// Takes the smallest value out of the heap and returns it, or returns
    /// `None` if the heap is empty. Among equal smallest values it takes
    /// the one under [`FibHeap::min_handle`]; that handle is dead from here
    /// on. What is left is consolidated.
    pub fn extract_min(&mut self) -> (min: Option<T>)
        requires
            obeys_total_order::<T>(),
            old(self).wf(),
        ensures
            final(self).wf(),
            final(self).issued() == old(self).issued(),
            final(self).threshold() == old(self).threshold(),
            match min {
                Some(v) => {
                    &&& old(self).min_handle() is Some
                    &&& old(self)@.dom().contains(old(self).min_handle()->0)
                    &&& v == old(self)@[old(self).min_handle()->0]
                    &&& forall|h: Handle|
                        old(self)@.dom().contains(h) ==> le(v, #[trigger] old(self)@[h])
                    &&& final(self)@ == old(self)@.remove(old(self).min_handle()->0)
                    &&& (final(self).forest(), final(self).roots(), final(self).min_slot())
                        == extraction(
                        old(self).forest(),
                        old(self).roots(),
                        old(self).min_slot()->0,
                    )
                    &&& final(self).is_consolidated()
                    &&& min_first(final(self).forest(), final(self).roots(), final(self).min_slot())
                    &&& extracted(old(self).forest(), final(self).forest(), old(self).min_slot()->0)
                },
                None => {
                    &&& old(self).min_handle() is None
                    &&& old(self)@ == Map::<Handle, T>::empty()
                    &&& final(self)@ == old(self)@
                    &&& final(self).forest() == old(self).forest()
                    &&& final(self).roots() == old(self).roots()
                    &&& final(self).min_slot() == old(self).min_slot()
                },
            },
    {
        let mut none = NoInstrument;
        self.extract_min_with(&mut none)
    }

    /// As [`FibHeap::extract_min`], and reports the phases of the work to
    /// `instrument`: the making of roots out of the children of the
    /// minimum, the pass with each root's way through the table and each
    /// taking of a place, free or held, and the building of the roots anew.
    pub fn extract_min_with<I: Instrument>(&mut self, instrument: &mut I) -> (min: Option<T>)
        requires
            obeys_total_order::<T>(),
            old(self).wf(),
        ensures
            final(self).wf(),
            final(self).issued() == old(self).issued(),
            final(self).threshold() == old(self).threshold(),
            match min {
                Some(v) => {
                    &&& old(self).min_handle() is Some
                    &&& old(self)@.dom().contains(old(self).min_handle()->0)
                    &&& v == old(self)@[old(self).min_handle()->0]
                    &&& forall|h: Handle|
                        old(self)@.dom().contains(h) ==> le(v, #[trigger] old(self)@[h])
                    &&& final(self)@ == old(self)@.remove(old(self).min_handle()->0)
                    &&& (final(self).forest(), final(self).roots(), final(self).min_slot())
                        == extraction(
                        old(self).forest(),
                        old(self).roots(),
                        old(self).min_slot()->0,
                    )
                    &&& final(self).is_consolidated()
                    &&& min_first(final(self).forest(), final(self).roots(), final(self).min_slot())
                    &&& extracted(old(self).forest(), final(self).forest(), old(self).min_slot()->0)
                },
                None => {
                    &&& old(self).min_handle() is None
                    &&& old(self)@ == Map::<Handle, T>::empty()
                    &&& final(self)@ == old(self)@
                    &&& final(self).forest() == old(self).forest()
                    &&& final(self).roots() == old(self).roots()
                    &&& final(self).min_slot() == old(self).min_slot()
                },
            },
    {
        proof {
            self.lemma_min_is_least();
        }
        let m = match self.min {
            Some(m) => m,
            None => {
                return None;
            },
        };
        let ghost start = self.store.nodes();
        self.promote_children(m, instrument);
        let ghost nodes = self.store.nodes();
        let ghost roots = self.roots@;
        proof {
            lemma_values_same(start, nodes);
            self.store.lemma_ok();
        }
        let mut k: usize = 0;
        while self.roots[k] != m
            invariant
                k < roots.len(),
                roots == self.roots@,
                roots.contains(m),
                forall|j: int| 0 <= j < k ==> roots[j] != m,
            decreases roots.len() - k,
        {
            proof {
                let n = choose|n: int| 0 <= n < roots.len() && roots[n] == m;
                assert(n > k);
                assert(k + 1 < self.roots.len());
            }
            k += 1;
        }
        self.roots.remove(k);
        let value = self.store.release(m);
        self.min = None;
        proof {
            let after = self.store.nodes();
            let rest = self.roots@;
            assert(position(roots, m) == k);
            lemma_values_remove(nodes, m);
            lemma_degrees_remove_single(nodes, m, None);
            assert forall|c: usize| #[trigger]
                after.dom().contains(c) && after[c].parent is Some implies le(
                after[after[c].parent->0].value,
                after[c].value,
            ) by {
                assert(nodes.dom().contains(c));
                assert(parent_ok(nodes, c, nodes[c].parent->0));
            }
            assert forall|n: int| 0 <= n < rest.len() implies after.dom().contains(
                #[trigger] rest[n],
            ) && after[rest[n]].parent is None by {
                let o = if n < k { n } else { n + 1 };
                assert(rest[n] == roots[o]);
                assert(nodes.dom().contains(roots[o]));
            }
            assert forall|i: usize| #[trigger]
                after.dom().contains(i) && after[i].parent is None implies rest.contains(i) by {
                assert(nodes.dom().contains(i));
                let o = choose|o: int| 0 <= o < roots.len() && roots[o] == i;
                let n = if o < k { o } else { o - 1 };
                assert(rest[n] == i);
            }
        }
        self.consolidate(instrument);
        Some(value)
    }
}

} // verus!

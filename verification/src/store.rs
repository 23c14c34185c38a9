//! The node store: an arena that owns every node of the heap.
//!
//! A node lives in a slot. The slot's index is what the nodes use to point at
//! one another; a [`Handle`] is what callers hold. A handle carries the
//! slot's generation, which moves on each time the slot is released, so a
//! handle to a node that is gone never resolves again.
//!
//! Contracts speak of the store through its model, [`Store::nodes`]: a map
//! from slot index to [`NodeModel`]. [`forest_ok`] says when such a map is a
//! forest.
use vstd::prelude::*;

verus! {

/// Names one node of one heap, from the insertion that made it on. It
/// means nothing to another heap.
#[derive(Clone, Copy, Debug, PartialEq, Eq, Hash, Structural)]
pub struct Handle {
    index: usize,
    generation: u64,
}

impl Handle {
    /// The slot that the handle points into.
    pub closed spec fn slot(self) -> usize {
        self.index
    }
}

/// What the contracts see of a node.
pub struct NodeModel<T> {
    /// The handle under which the node was given out.
    pub handle: Handle,
    /// The value that the node holds.
    pub value: T,
    /// The slot of the parent; `None` for a root.
    pub parent: Option<usize>,
    /// The slots of the children, oldest first.
    pub children: Seq<usize>,
    /// Whether the node has lost a child since it last became a child.
    pub marked: bool,
}

impl<T> NodeModel<T> {
    /// A node under `handle` that holds `value` and has no links.
    pub open spec fn single(handle: Handle, value: T) -> Self {
        NodeModel { handle, value, parent: None, children: Seq::empty(), marked: false }
    }

    /// The node with another value.
    pub open spec fn with_value(self, value: T) -> Self {
        NodeModel { value, ..self }
    }

    /// The node with another parent, or none.
    pub open spec fn with_parent(self, parent: Option<usize>) -> Self {
        NodeModel { parent, ..self }
    }

    /// The node with other children.
    pub open spec fn with_children(self, children: Seq<usize>) -> Self {
        NodeModel { children, ..self }
    }

    /// The node with or without a mark.
    pub open spec fn with_marked(self, marked: bool) -> Self {
        NodeModel { marked, ..self }
    }
}

/// The node `c` is a proper child of `p`: alive, and pointing back at `p`.
pub open spec fn child_ok<T>(nodes: Map<usize, NodeModel<T>>, p: usize, c: usize) -> bool {
    nodes.dom().contains(c) && nodes[c].parent == Some(p)
}

/// The node `p` is a proper parent of `c`: alive, and listing `c`.
pub open spec fn parent_ok<T>(nodes: Map<usize, NodeModel<T>>, c: usize, p: usize) -> bool {
    nodes.dom().contains(p) && nodes[p].children.contains(c)
}

/// The nodes form a forest as far as their own links can tell: parent and
/// child links agree, no node is listed twice, each node sits in the slot
/// that its handle names, and only a node with a parent is marked.
pub open spec fn forest_ok<T>(nodes: Map<usize, NodeModel<T>>) -> bool {
    &&& forall|i: usize| #[trigger] nodes.dom().contains(i) ==> nodes[i].handle.slot() == i
    &&& forall|i: usize| #[trigger] nodes.dom().contains(i) ==> nodes[i].children.no_duplicates()
    &&& forall|i: usize| #[trigger]
        nodes.dom().contains(i) && nodes[i].marked ==> nodes[i].parent is Some
    &&& forall|i: usize, k: int|
        nodes.dom().contains(i) && 0 <= k < nodes[i].children.len() ==> child_ok(
            nodes,
            i,
            #[trigger] nodes[i].children[k],
        )
    &&& forall|c: usize| #[trigger]
        nodes.dom().contains(c) && nodes[c].parent is Some ==> parent_ok(
            nodes,
            c,
            nodes[c].parent->0,
        )
}

/// The values of the live nodes, by handle.
pub open spec fn values_by_handle<T>(nodes: Map<usize, NodeModel<T>>) -> Map<Handle, T> {
    Map::new(
        |h: Handle| nodes.dom().contains(h.slot()) && nodes[h.slot()].handle == h,
        |h: Handle| nodes[h.slot()].value,
    )
}

/// A forest stays one when a node without links joins it in an empty slot.
pub proof fn lemma_forest_insert_single<T>(nodes: Map<usize, NodeModel<T>>, i: usize, node: NodeModel<T>)
    requires
        forest_ok(nodes),
        !nodes.dom().contains(i),
        node == NodeModel::single(node.handle, node.value),
        node.handle.slot() == i,
    ensures
        forest_ok(nodes.insert(i, node)),
{
    let after = nodes.insert(i, node);
    assert forall|j: usize, k: int|
        after.dom().contains(j) && 0 <= k < after[j].children.len() implies child_ok(
        after,
        j,
        #[trigger] after[j].children[k],
    ) by {
        assert(child_ok(nodes, j, nodes[j].children[k]));
    }
    assert forall|c: usize| #[trigger]
        after.dom().contains(c) && after[c].parent is Some implies parent_ok(
        after,
        c,
        after[c].parent->0,
    ) by {
        assert(parent_ok(nodes, c, nodes[c].parent->0));
    }
}

/// A forest stays one when a root without children leaves it.
pub proof fn lemma_forest_remove_single<T>(nodes: Map<usize, NodeModel<T>>, i: usize)
    requires
        forest_ok(nodes),
        nodes.dom().contains(i),
        nodes[i].parent is None,
        nodes[i].children.len() == 0,
    ensures
        forest_ok(nodes.remove(i)),
{
    let after = nodes.remove(i);
    assert forall|j: usize, k: int|
        after.dom().contains(j) && 0 <= k < after[j].children.len() implies child_ok(
        after,
        j,
        #[trigger] after[j].children[k],
    ) by {
        assert(child_ok(nodes, j, nodes[j].children[k]));
    }
    assert forall|c: usize| #[trigger]
        after.dom().contains(c) && after[c].parent is Some implies parent_ok(
        after,
        c,
        after[c].parent->0,
    ) by {
        assert(parent_ok(nodes, c, nodes[c].parent->0));
    }
}

/// A forest stays one when whole trees leave it: a set of nodes that holds,
/// with a node, the node's parent and the node's children.
pub proof fn lemma_forest_remove_trees<T>(nodes: Map<usize, NodeModel<T>>, gone: Set<usize>)
    requires
        forest_ok(nodes),
        forall|c: usize| #[trigger]
            nodes.dom().contains(c) && nodes[c].parent is Some ==> (gone.contains(c)
                <==> gone.contains(nodes[c].parent->0)),
    ensures
        forest_ok(nodes.remove_keys(gone)),
{
    let after = nodes.remove_keys(gone);
    assert forall|j: usize, k: int|
        after.dom().contains(j) && 0 <= k < after[j].children.len() implies child_ok(
        after,
        j,
        #[trigger] after[j].children[k],
    ) by {
        assert(child_ok(nodes, j, nodes[j].children[k]));
    }
    assert forall|c: usize| #[trigger]
        after.dom().contains(c) && after[c].parent is Some implies parent_ok(
        after,
        c,
        after[c].parent->0,
    ) by {
        assert(parent_ok(nodes, c, nodes[c].parent->0));
    }
}

/// A forest stays one when the root `child` is hung under another root.
pub proof fn lemma_forest_link<T>(nodes: Map<usize, NodeModel<T>>, child: usize, parent: usize)
    requires
        forest_ok(nodes),
        nodes.dom().contains(child),
        nodes.dom().contains(parent),
        child != parent,
        nodes[child].parent is None,
        nodes[parent].parent is None,
    ensures
        forest_ok(linked(nodes, child, parent)),
        !nodes[parent].children.contains(child),
{
    let after = linked(nodes, child, parent);
    let kids = nodes[parent].children;
    if kids.contains(child) {
        let k = choose|k: int| 0 <= k < kids.len() && kids[k] == child;
        assert(child_ok(nodes, parent, nodes[parent].children[k]));
    }
    assert(after[parent].children.no_duplicates());
    assert forall|j: usize, k: int|
        after.dom().contains(j) && 0 <= k < after[j].children.len() implies child_ok(
        after,
        j,
        #[trigger] after[j].children[k],
    ) by {
        if j == parent && k == kids.len() {
        } else {
            assert(child_ok(nodes, j, nodes[j].children[k]));
        }
    }
    assert forall|c: usize| #[trigger]
        after.dom().contains(c) && after[c].parent is Some implies parent_ok(
        after,
        c,
        after[c].parent->0,
    ) by {
        if c == child {
            assert(after[parent].children[kids.len() as int] == child);
        } else {
            let p = nodes[c].parent->0;
            assert(parent_ok(nodes, c, p));
            if p == parent {
                let k = choose|k: int| 0 <= k < kids.len() && kids[k] == c;
                assert(after[parent].children[k] == c);
            }
        }
    }
}

/// The forest after the root `child` was hung under the root `parent`.
pub open spec fn linked<T>(nodes: Map<usize, NodeModel<T>>, child: usize, parent: usize) -> Map<
    usize,
    NodeModel<T>,
> {
    nodes.insert(child, nodes[child].with_parent(Some(parent))).insert(
        parent,
        nodes[parent].with_children(nodes[parent].children.push(child)),
    )
}

/// Where `x` stands in `s`.
pub open spec fn position(s: Seq<usize>, x: usize) -> int {
    choose|k: int| 0 <= k < s.len() && s[k] == x
}

/// The forest after `child` was cut from its parent and made a root: the
/// parent no longer lists it, and it has no parent and no mark.
pub open spec fn detached<T>(nodes: Map<usize, NodeModel<T>>, child: usize) -> Map<
    usize,
    NodeModel<T>,
> {
    let parent = nodes[child].parent->0;
    let k = position(nodes[parent].children, child);
    nodes.insert(child, nodes[child].with_parent(None).with_marked(false)).insert(
        parent,
        nodes[parent].with_children(nodes[parent].children.remove(k)),
    )
}

/// A forest stays one when a child is cut loose and becomes a root.
pub proof fn lemma_forest_detach<T>(nodes: Map<usize, NodeModel<T>>, child: usize)
    requires
        forest_ok(nodes),
        nodes.dom().contains(child),
        nodes[child].parent is Some,
        nodes[child].parent->0 != child,
    ensures
        forest_ok(detached(nodes, child)),
        0 <= position(nodes[nodes[child].parent->0].children, child)
            < nodes[nodes[child].parent->0].children.len(),
        nodes[nodes[child].parent->0].children[position(
            nodes[nodes[child].parent->0].children,
            child,
        )] == child,
{
    let parent = nodes[child].parent->0;
    let after = detached(nodes, child);
    let kids = nodes[parent].children;
    assert(parent_ok(nodes, child, parent));
    let k = position(kids, child);
    let rest = kids.remove(k);
    assert(rest.no_duplicates());
    assert forall|j: usize, n: int|
        after.dom().contains(j) && 0 <= n < after[j].children.len() implies child_ok(
        after,
        j,
        #[trigger] after[j].children[n],
    ) by {
        if j == parent {
            let m = if n < k { n } else { n + 1 };
            assert(rest[n] == kids[m]);
            assert(child_ok(nodes, parent, nodes[parent].children[m]));
        } else {
            assert(child_ok(nodes, j, nodes[j].children[n]));
            if nodes[j].children[n] == child {
                assert(false);
            }
        }
    }
    assert forall|c: usize| #[trigger]
        after.dom().contains(c) && after[c].parent is Some implies parent_ok(
        after,
        c,
        after[c].parent->0,
    ) by {
        let p = nodes[c].parent->0;
        assert(parent_ok(nodes, c, p));
        if p == parent {
            let m = choose|m: int| 0 <= m < kids.len() && kids[m] == c;
            let n = if m < k { m } else { m - 1 };
            assert(rest[n] == c);
        } else if p == child {
            let m = choose|m: int|
                0 <= m < nodes[child].children.len() && nodes[child].children[m] == c;
            assert(after[child].children[m] == c);
        }
    }
}

/// Two forests hold the same values under the same handles when they have
/// the same slots filled and agree on handle and value in each.
pub open spec fn same_values<T>(a: Map<usize, NodeModel<T>>, b: Map<usize, NodeModel<T>>) -> bool {
    &&& forall|i: usize| a.dom().contains(i) <==> b.dom().contains(i)
    &&& forall|i: usize| #[trigger]
        a.dom().contains(i) ==> a[i].handle == b[i].handle && a[i].value == b[i].value
}

/// Forests with the same values by slot have the same values by handle.
pub proof fn lemma_values_same<T>(a: Map<usize, NodeModel<T>>, b: Map<usize, NodeModel<T>>)
    requires
        same_values(a, b),
    ensures
        values_by_handle(a) == values_by_handle(b),
{
    assert forall|h: Handle|
        values_by_handle(a).dom().contains(h) <==> values_by_handle(b).dom().contains(h) by {
        if a.dom().contains(h.slot()) {
            assert(b.dom().contains(h.slot()));
        }
        if b.dom().contains(h.slot()) {
            assert(a.dom().contains(h.slot()));
        }
    }
    assert(values_by_handle(a) =~= values_by_handle(b));
}

/// Agreement on handles and values carries over a forest in between.
pub proof fn lemma_same_values_trans<T>(
    a: Map<usize, NodeModel<T>>,
    b: Map<usize, NodeModel<T>>,
    c: Map<usize, NodeModel<T>>,
)
    requires
        same_values(a, b),
        same_values(b, c),
    ensures
        same_values(a, c),
{
    assert forall|i: usize| #[trigger] a.dom().contains(i) implies a[i].handle == c[i].handle
        && a[i].value == c[i].value by {
        assert(b.dom().contains(i));
    }
}

/// A forest holds as many values as it has nodes.
pub proof fn lemma_values_count<T>(nodes: Map<usize, NodeModel<T>>)
    requires
        forest_ok(nodes),
        nodes.dom().finite(),
    ensures
        values_by_handle(nodes).dom().finite(),
        values_by_handle(nodes).dom().len() == nodes.dom().len(),
{
    let f = |i: usize| nodes[i].handle;
    let handles = values_by_handle(nodes).dom();
    assert(nodes.dom().map(f) =~= handles) by {
        assert forall|h: Handle| nodes.dom().map(f).contains(h) <==> handles.contains(h) by {
            if handles.contains(h) {
                assert(nodes.dom().contains(h.slot()) && f(h.slot()) == h);
            }
        }
    }
    assert(vstd::relations::injective_on(f, nodes.dom()));
    vstd::set_lib::lemma_map_size(nodes.dom(), handles, f);
}

/// A node that joins in an empty slot adds its value under its handle.
pub proof fn lemma_values_insert<T>(nodes: Map<usize, NodeModel<T>>, i: usize, node: NodeModel<T>)
    requires
        !nodes.dom().contains(i),
        node.handle.slot() == i,
    ensures
        values_by_handle(nodes.insert(i, node)) == values_by_handle(nodes).insert(
            node.handle,
            node.value,
        ),
{
    assert(values_by_handle(nodes.insert(i, node)) =~= values_by_handle(nodes).insert(
        node.handle,
        node.value,
    ));
}

/// A node that leaves takes its handle with it.
pub proof fn lemma_values_remove<T>(nodes: Map<usize, NodeModel<T>>, i: usize)
    requires
        forest_ok(nodes),
        nodes.dom().contains(i),
    ensures
        values_by_handle(nodes.remove(i)) == values_by_handle(nodes).remove(nodes[i].handle),
{
    assert(values_by_handle(nodes.remove(i)) =~= values_by_handle(nodes).remove(nodes[i].handle));
}

/// A new value for a node replaces the old one under the node's handle.
pub proof fn lemma_values_set<T>(nodes: Map<usize, NodeModel<T>>, i: usize, value: T)
    requires
        forest_ok(nodes),
        nodes.dom().contains(i),
    ensures
        values_by_handle(nodes.insert(i, nodes[i].with_value(value))) == values_by_handle(
            nodes,
        ).insert(nodes[i].handle, value),
{
    assert(values_by_handle(nodes.insert(i, nodes[i].with_value(value))) =~= values_by_handle(
        nodes,
    ).insert(nodes[i].handle, value));
}

/// A node with its links.
pub struct Node<T> {
    value: T,
    /// The slot of the parent; `None` for a root.
    parent: Option<usize>,
    /// The slots of the children, oldest first.
    children: Vec<usize>,
    /// The number of children.
    degree: usize,
    /// Whether the node has lost a child since it last became a child.
    marked: bool,
}

impl<T> Node<T> {
    /// What the contracts see of the node when it stands under `handle`.
    pub closed spec fn model(&self, handle: Handle) -> NodeModel<T> {
        NodeModel {
            handle,
            value: self.value,
            parent: self.parent,
            children: self.children@,
            marked: self.marked,
        }
    }

    /// The number of children is what it is said to be.
    pub closed spec fn ok(&self) -> bool {
        self.degree == self.children@.len()
    }

    /// A node that holds `value` and has no links yet.
    pub fn new(value: T) -> (node: Self)
        ensures
            node.ok(),
            forall|handle: Handle| #[trigger] node.model(handle) == NodeModel::single(handle, value),
    {
        Node { value, parent: None, children: Vec::new(), degree: 0, marked: false }
    }
}

struct Slot<T> {
    generation: u64,
    node: Option<Node<T>>,
}

/// The arena. It owns the nodes; everything else refers to them by slot.
pub struct Store<T> {
    slots: Vec<Slot<T>>,
    /// Empty slots that may be filled again.
    free: Vec<usize>,
    /// For each slot a number that falls from parent to child.
    rank: Ghost<Seq<nat>>,
    /// No rank is above this.
    cap: Ghost<nat>,
    /// How many slots hold a node.
    count: usize,
}

impl<T> Store<T> {
    spec fn live(&self, i: int) -> bool {
        0 <= i < self.slots@.len() && self.slots@[i].node is Some
    }

    spec fn at(&self, i: int) -> Node<T> {
        self.slots@[i].node->0
    }

    spec fn model_at(&self, i: int) -> NodeModel<T> {
        self.at(i).model(Handle { index: i as usize, generation: self.slots@[i].generation })
    }

    /// The live nodes, by slot.
    pub closed spec fn nodes(&self) -> Map<usize, NodeModel<T>> {
        Map::new(|i: usize| self.live(i as int), |i: usize| self.model_at(i as int))
    }

    /// Every handle that the store has given out so far.
    pub closed spec fn issued(&self) -> Set<Handle> {
        Set::new(
            |h: Handle|
                h.index < self.slots@.len() && (h.generation < self.slots@[h.index as int].generation
                    || (h.generation == self.slots@[h.index as int].generation
                    && !self.free@.contains(h.index))),
        )
    }

    /// The rank of the node in slot `i`.
    pub closed spec fn rank(&self, i: usize) -> nat {
        self.rank@[i as int]
    }

    /// A bound on the rank of every node.
    pub closed spec fn rank_cap(&self) -> nat {
        self.cap@
    }

    /// How many slots there are, filled or empty.
    pub closed spec fn slot_count(&self) -> nat {
        self.slots@.len()
    }

    /// How many of the slots hold a node.
    spec fn filled(slots: Seq<Slot<T>>) -> nat
        decreases slots.len(),
    {
        if slots.len() == 0 {
            0
        } else if slots.last().node is Some {
            Self::filled(slots.drop_last()) + 1
        } else {
            Self::filled(slots.drop_last())
        }
    }

    /// A slot that is emptied is one filled slot less.
    proof fn lemma_filled_less(slots: Seq<Slot<T>>, i: int, slot: Slot<T>)
        requires
            0 <= i < slots.len(),
            slots[i].node is Some,
            slot.node is None,
        ensures
            Self::filled(slots.update(i, slot)) + 1 == Self::filled(slots),
        decreases slots.len(),
    {
        let after = slots.update(i, slot);
        if i == slots.len() - 1 {
            assert(after.drop_last() =~= slots.drop_last());
        } else {
            assert(after.drop_last() =~= slots.drop_last().update(i, slot));
            Self::lemma_filled_less(slots.drop_last(), i, slot);
        }
    }

    /// As many slots are filled in one row of slots as in another that has
    /// nodes in the same places.
    proof fn lemma_filled_same(a: Seq<Slot<T>>, b: Seq<Slot<T>>)
        requires
            a.len() == b.len(),
            forall|i: int| 0 <= i < a.len() ==> (a[i].node is Some <==> b[i].node is Some),
        ensures
            Self::filled(a) == Self::filled(b),
        decreases a.len(),
    {
        if a.len() > 0 {
            Self::lemma_filled_same(a.drop_last(), b.drop_last());
        }
    }

    /// No more slots are filled than there are.
    proof fn lemma_filled_bound(slots: Seq<Slot<T>>)
        ensures
            Self::filled(slots) <= slots.len(),
        decreases slots.len(),
    {
        if slots.len() > 0 {
            Self::lemma_filled_bound(slots.drop_last());
        }
    }

    /// The filled slots among the first `n`.
    spec fn filled_before(&self, n: nat) -> Set<usize> {
        Set::new(|i: usize| i < n && self.live(i as int))
    }

    /// The filled slots among the first `n` are as many as the count says.
    proof fn lemma_filled_before(&self, n: nat)
        requires
            n <= self.slots@.len(),
        ensures
            self.filled_before(n).finite(),
            self.filled_before(n).len() == Self::filled(self.slots@.take(n as int)),
        decreases n,
    {
        assert(self.slots.len() == self.slots@.len());
        if n == 0 {
            assert(self.filled_before(n) =~= Set::<usize>::empty());
        } else {
            let m = (n - 1) as nat;
            self.lemma_filled_before(m);
            assert(self.slots@.take(n as int).drop_last() =~= self.slots@.take(m as int));
            if self.live(m as int) {
                assert(self.filled_before(n) =~= self.filled_before(m).insert(m as usize));
            } else {
                assert(self.filled_before(n) =~= self.filled_before(m));
            }
        }
    }

    /// The number of nodes.
    pub closed spec fn node_count(&self) -> nat {
        self.count as nat
    }

    /// The number of nodes is the number of filled slots.
    pub proof fn lemma_node_count(&self)
        requires
            self.ok(),
        ensures
            self.nodes().dom().finite(),
            self.node_count() == self.nodes().dom().len(),
    {
        self.lemma_filled_before(self.slots@.len());
        assert(self.slots@.take(self.slots@.len() as int) =~= self.slots@);
        assert(self.filled_before(self.slots@.len()) =~= self.nodes().dom());
    }

    /// The store's invariant.
    pub closed spec fn ok(&self) -> bool {
        &&& self.count == Self::filled(self.slots@)
        &&& self.rank@.len() == self.slots@.len()
        &&& forall|i: int| 0 <= i < self.rank@.len() ==> #[trigger] self.rank@[i] <= self.cap@
        &&& forall|k: int|
            0 <= k < self.free@.len() ==> (#[trigger] self.free@[k]) < self.slots@.len()
                && !self.live(self.free@[k] as int)
        &&& self.free@.no_duplicates()
        &&& forall|i: int| #[trigger]
            self.live(i) ==> self.at(i).degree == self.at(i).children@.len()
        &&& forall|c: int| #[trigger]
            self.live(c) && self.at(c).parent is Some ==> self.at(c).parent->0
                < self.slots@.len() && self.rank@[c] < self.rank@[self.at(c).parent->0 as int]
        &&& forest_ok(self.nodes())
    }

    /// What the invariant says of the model.
    pub proof fn lemma_ok(&self)
        requires
            self.ok(),
        ensures
            forest_ok(self.nodes()),
            forall|i: usize| #[trigger]
                self.nodes().dom().contains(i) ==> i < self.slot_count() && self.issued().contains(
                    self.nodes()[i].handle,
                ),
            forall|i: usize| #[trigger]
                self.nodes().dom().contains(i) ==> self.rank(i) <= self.rank_cap(),
            forall|c: usize| #[trigger]
                self.nodes().dom().contains(c) && self.nodes()[c].parent is Some ==> self.rank(c)
                    < self.rank(self.nodes()[c].parent->0),
    {
        assert forall|i: usize| #[trigger] self.nodes().dom().contains(i) implies i
            < self.slot_count() && self.issued().contains(self.nodes()[i].handle) by {
            if self.free@.contains(i) {
                let k = choose|k: int| 0 <= k < self.free@.len() && self.free@[k] == i;
                assert(!self.live(self.free@[k] as int));
            }
        }
        assert forall|c: usize| #[trigger]
            self.nodes().dom().contains(c) && self.nodes()[c].parent is Some implies self.rank(c)
            < self.rank(self.nodes()[c].parent->0) by {
            assert(self.live(c as int));
        }
    }

    /// The number of slots is the length of a vector.
    pub proof fn lemma_slot_count(&self)
        ensures
            self.slot_count() <= usize::MAX,
    {
        assert(self.slots.len() == self.slots@.len());
    }

    /// An empty store.
    pub fn new() -> (store: Self)
        ensures
            store.ok(),
            store.nodes() == Map::<usize, NodeModel<T>>::empty(),
            store.issued() == Set::<Handle>::empty(),
    {
        let store = Store {
            slots: Vec::new(),
            free: Vec::new(),
            rank: Ghost(Seq::empty()),
            cap: Ghost(0),
            count: 0,
        };
        assert(store.nodes() =~= Map::<usize, NodeModel<T>>::empty());
        assert(store.issued() =~= Set::<Handle>::empty());
        store
    }
}

impl<T> Store<T> {
    /// The number of slots, filled or empty.
    pub fn slots(&self) -> (n: usize)
        ensures
            n == self.slot_count(),
    {
        self.slots.len()
    }

    /// The number of nodes.
    pub fn len(&self) -> (n: usize)
        ensures
            n == self.node_count(),
    {
        self.count
    }

    /// The slot of the node that `handle` names, if that node is still there.
    pub fn resolve(&self, handle: Handle) -> (r: Option<usize>)
        ensures
            r is Some <==> values_by_handle(self.nodes()).dom().contains(handle),
            r is Some ==> r->0 == handle.slot(),
    {
        if handle.index < self.slots.len() && self.slots[handle.index].generation
            == handle.generation && self.slots[handle.index].node.is_some() {
            Some(handle.index)
        } else {
            None
        }
    }

    /// The value of the node in slot `i`.
    pub fn value(&self, i: usize) -> (v: &T)
        requires
            self.nodes().dom().contains(i),
        ensures
            *v == self.nodes()[i].value,
    {
        match &self.slots[i].node {
            Some(node) => &node.value,
            None => vstd::pervasive::unreached(),
        }
    }

    /// The parent of the node in slot `i`.
    pub fn parent(&self, i: usize) -> (p: Option<usize>)
        requires
            self.nodes().dom().contains(i),
        ensures
            p == self.nodes()[i].parent,
    {
        match &self.slots[i].node {
            Some(node) => node.parent,
            None => None,
        }
    }

    /// How many children the node in slot `i` has.
    pub fn degree(&self, i: usize) -> (d: usize)
        requires
            self.ok(),
            self.nodes().dom().contains(i),
        ensures
            d == self.nodes()[i].children.len(),
    {
        assert(self.live(i as int));
        match &self.slots[i].node {
            Some(node) => node.degree,
            None => 0,
        }
    }

    /// Whether the node in slot `i` is marked.
    pub fn is_marked(&self, i: usize) -> (b: bool)
        requires
            self.nodes().dom().contains(i),
        ensures
            b == self.nodes()[i].marked,
    {
        match &self.slots[i].node {
            Some(node) => node.marked,
            None => false,
        }
    }

    /// The youngest child of the node in slot `i`.
    pub fn last_child(&self, i: usize) -> (c: Option<usize>)
        requires
            self.nodes().dom().contains(i),
        ensures
            match c {
                Some(c) => self.nodes()[i].children.len() > 0 && c
                    == self.nodes()[i].children.last(),
                None => self.nodes()[i].children.len() == 0,
            },
    {
        match &self.slots[i].node {
            Some(node) => {
                let n = node.children.len();
                if n > 0 {
                    Some(node.children[n - 1])
                } else {
                    None
                }
            },
            None => None,
        }
    }

    /// Puts `value` into a node of its own, in a slot that was empty, and
    /// returns the slot with a handle that was never given out before.
    pub fn allocate(&mut self, value: T) -> (r: (usize, Handle))
        requires
            old(self).ok(),
        ensures
            final(self).ok(),
            !old(self).nodes().dom().contains(r.0),
            r.1.slot() == r.0,
            !old(self).issued().contains(r.1),
            final(self).issued() == old(self).issued().insert(r.1),
            final(self).nodes() == old(self).nodes().insert(r.0, NodeModel::single(r.1, value)),
    {
        let node = Node::new(value);
        let ghost fresh = node;
        let ghost before = *self;
        let slot = self.free.pop();
        let i = match slot {
            Some(i) => {
                assert(before.free@[before.free@.len() - 1] == i);
                self.slots[i].node = Some(node);
                i
            },
            None => {
                self.slots.push(Slot { generation: 0, node: Some(node) });
                proof {
                    self.rank@ = self.rank@.push(0);
                }
                self.slots.len() - 1
            },
        };
        let handle = Handle { index: i, generation: self.slots[i].generation };
        proof {
            assert(fresh.model(handle) == NodeModel::single(handle, value));
            assert(self.at(i as int) == fresh);
            assert(!before.live(i as int));
            Self::lemma_filled_bound(self.slots@);
            if i < before.slots@.len() {
                assert(self.slots@.update(i as int, before.slots@[i as int]) =~= before.slots@);
                Self::lemma_filled_less(self.slots@, i as int, before.slots@[i as int]);
            } else {
                assert(self.slots@.drop_last() =~= before.slots@);
            }
            assert(Self::filled(self.slots@) == Self::filled(before.slots@) + 1);
            assert(self.slots.len() == self.slots@.len());
        }
        self.count = self.count + 1;
        proof {
            assert(self.nodes() =~= before.nodes().insert(i, NodeModel::single(handle, value)));
            lemma_forest_insert_single(before.nodes(), i, NodeModel::single(handle, value));
            assert forall|k: int| 0 <= k < self.free@.len() implies (#[trigger] self.free@[k])
                < self.slots@.len() && !self.live(self.free@[k] as int) by {
                assert(self.free@[k] == before.free@[k]);
                assert(!before.live(before.free@[k] as int));
            }
            assert forall|c: int| #[trigger] self.live(c) && self.at(c).parent is Some implies self.at(
                c,
            ).parent->0 < self.slots@.len() && self.rank@[c] < self.rank@[self.at(c).parent->0 as int] by {
                assert(before.live(c));
            }
            assert(!self.free@.contains(i)) by {
                if self.free@.contains(i) {
                    let k = choose|k: int| 0 <= k < self.free@.len() && self.free@[k] == i;
                    assert(before.free@[k] == i);
                }
            }
            assert(self.issued() =~= before.issued().insert(handle)) by {
                assert forall|h: Handle| self.issued().contains(h) <==> before.issued().insert(
                    handle,
                ).contains(h) by {
                    if h.index != i && h.index < before.slots@.len() {
                        if before.free@.contains(h.index) {
                            let k = choose|k: int|
                                0 <= k < before.free@.len() && before.free@[k] == h.index;
                            assert(self.free@[k] == h.index);
                        }
                        if self.free@.contains(h.index) {
                            let k = choose|k: int|
                                0 <= k < self.free@.len() && self.free@[k] == h.index;
                            assert(before.free@[k] == h.index);
                        }
                    }
                }
            }
            assert forall|j: int| #[trigger] self.live(j) implies self.at(j).degree == self.at(
                j,
            ).children@.len() by {
                if j != i {
                    assert(before.live(j));
                }
            }
        }
        (i, handle)
    }
}

impl<T> Store<T> {
    /// Takes the node in slot `i` out of the store and returns its value.
    /// The node must be a root without children. Its handle is dead from
    /// here on.
    pub fn release(&mut self, i: usize) -> (value: T)
        requires
            old(self).ok(),
            old(self).nodes().dom().contains(i),
            old(self).nodes()[i].parent is None,
            old(self).nodes()[i].children.len() == 0,
        ensures
            final(self).ok(),
            value == old(self).nodes()[i].value,
            final(self).nodes() == old(self).nodes().remove(i),
            final(self).issued() == old(self).issued(),
    {
        let ghost before = *self;
        proof {
            before.lemma_not_free(i);
        }
        let node = self.slots[i].node.take();
        if self.slots[i].generation < u64::MAX {
            self.slots[i].generation = self.slots[i].generation + 1;
            self.free.push(i);
        }
        proof {
            assert(self.slots@ =~= before.slots@.update(i as int, self.slots@[i as int]));
            Self::lemma_filled_less(before.slots@, i as int, self.slots@[i as int]);
        }
        self.count = self.count - 1;
        proof {
            assert(self.nodes() =~= before.nodes().remove(i));
            lemma_forest_remove_single(before.nodes(), i);
            assert forall|k: int| 0 <= k < self.free@.len() implies (#[trigger] self.free@[k])
                < self.slots@.len() && !self.live(self.free@[k] as int) by {
                if k < before.free@.len() {
                    assert(!before.live(before.free@[k] as int));
                }
            }
            assert forall|j: int| #[trigger] self.live(j) implies self.at(j).degree == self.at(
                j,
            ).children@.len() by {
                assert(before.live(j));
            }
            assert forall|c: int| #[trigger] self.live(c) && self.at(c).parent is Some implies self.at(
                c,
            ).parent->0 < self.slots@.len() && self.rank@[c] < self.rank@[self.at(c).parent->0 as int] by {
                assert(before.live(c));
            }
            assert(self.issued() =~= before.issued()) by {
                assert forall|h: Handle| self.issued().contains(h) <==> before.issued().contains(
                    h,
                ) by {
                    if h.index < before.slots@.len() && h.index != i {
                        if before.free@.contains(h.index) {
                            let k = choose|k: int|
                                0 <= k < before.free@.len() && before.free@[k] == h.index;
                            assert(self.free@[k] == h.index);
                        }
                    }
                    if h.index == i && self.free@.len() > before.free@.len() {
                        assert(self.free@[before.free@.len() as int] == i);
                    }
                }
            }
        }
        match node {
            Some(node) => node.value,
            None => vstd::pervasive::unreached(),
        }
    }

    /// Hangs the root `child` under the root `parent`, as its youngest child.
    pub fn link(&mut self, child: usize, parent: usize)
        requires
            old(self).ok(),
            old(self).nodes().dom().contains(child),
            old(self).nodes().dom().contains(parent),
            child != parent,
            old(self).nodes()[child].parent is None,
            old(self).nodes()[parent].parent is None,
        ensures
            final(self).ok(),
            final(self).nodes() == linked(old(self).nodes(), child, parent),
            final(self).issued() == old(self).issued(),
            final(self).slot_count() == old(self).slot_count(),
    {
        let ghost before = *self;
        match &mut self.slots[child].node {
            Some(node) => {
                node.parent = Some(parent);
            },
            None => {},
        }
        match &mut self.slots[parent].node {
            Some(node) => {
                node.children.push(child);
                node.degree = node.children.len();
            },
            None => {},
        }
        proof {
            let above = self.rank@[child as int] + 1;
            if self.rank@[parent as int] < above {
                self.rank@ = self.rank@.update(parent as int, above as nat);
            }
            if self.cap@ < above {
                self.cap@ = above as nat;
            }
            assert(self.nodes() =~= linked(before.nodes(), child, parent));
            lemma_forest_link(before.nodes(), child, parent);
            Self::lemma_filled_same(before.slots@, self.slots@);
            assert forall|k: int| 0 <= k < self.free@.len() implies (#[trigger] self.free@[k])
                < self.slots@.len() && !self.live(self.free@[k] as int) by {
                assert(!before.live(before.free@[k] as int));
            }
            assert forall|j: int| #[trigger] self.live(j) implies self.at(j).degree == self.at(
                j,
            ).children@.len() by {
                assert(before.live(j));
            }
            assert forall|c: int| #[trigger] self.live(c) && self.at(c).parent is Some implies self.at(
                c,
            ).parent->0 < self.slots@.len() && self.rank@[c] < self.rank@[self.at(c).parent->0 as int] by {
                assert(before.live(c));
                assert(c != parent);
            }
        }
    }

    /// Cuts the node in slot `child` loose from its parent: the parent no
    /// longer lists it, and the node becomes an unmarked root. No other link
    /// changes.
    pub fn detach(&mut self, child: usize)
        requires
            old(self).ok(),
            old(self).nodes().dom().contains(child),
            old(self).nodes()[child].parent is Some,
        ensures
            final(self).ok(),
            final(self).issued() == old(self).issued(),
            final(self).rank_cap() == old(self).rank_cap(),
            forall|i: usize| final(self).rank(i) == old(self).rank(i),
            final(self).nodes() == detached(old(self).nodes(), child),
    {
        let ghost before = *self;
        assert(before.live(child as int));
        let parent = match &self.slots[child].node {
            Some(node) => match node.parent {
                Some(p) => p,
                None => vstd::pervasive::unreached(),
            },
            None => vstd::pervasive::unreached(),
        };
        proof {
            assert(parent_ok(before.nodes(), child, parent));
            assert(before.live(parent as int));
        }
        let at = match &self.slots[parent].node {
            Some(node) => {
                let mut k = node.children.len();
                while k > 0 && node.children[k - 1] != child
                    invariant
                        k <= node.children@.len(),
                        node.children@.contains(child),
                        forall|j: int| k <= j < node.children@.len() ==> node.children@[j] != child,
                    decreases k,
                {
                    k -= 1;
                }
                assert(k > 0) by {
                    let j = choose|j: int| 0 <= j < node.children@.len() && node.children@[j] == child;
                    assert(j < k);
                }
                k - 1
            },
            None => vstd::pervasive::unreached(),
        };
        match &mut self.slots[parent].node {
            Some(node) => {
                node.children.remove(at);
                node.degree = node.children.len();
            },
            None => {},
        }
        match &mut self.slots[child].node {
            Some(node) => {
                node.parent = None;
                node.marked = false;
            },
            None => {},
        }
        proof {
            lemma_forest_detach(before.nodes(), child);
            Self::lemma_filled_same(before.slots@, self.slots@);
            assert(position(before.nodes()[parent].children, child) == at);
            assert(self.nodes() =~= detached(before.nodes(), child));
            assert forall|k: int| 0 <= k < self.free@.len() implies (#[trigger] self.free@[k])
                < self.slots@.len() && !self.live(self.free@[k] as int) by {
                assert(!before.live(before.free@[k] as int));
            }
            assert forall|j: int| #[trigger] self.live(j) implies self.at(j).degree == self.at(
                j,
            ).children@.len() by {
                assert(before.live(j));
            }
            assert forall|c: int| #[trigger] self.live(c) && self.at(c).parent is Some implies self.at(
                c,
            ).parent->0 < self.slots@.len() && self.rank@[c] < self.rank@[self.at(c).parent->0 as int] by {
                assert(before.live(c));
            }
        }
    }

    /// Sets or clears the mark of the node in slot `i`. Only a node with a
    /// parent can be marked.
    pub fn set_marked(&mut self, i: usize, marked: bool)
        requires
            old(self).ok(),
            old(self).nodes().dom().contains(i),
            marked ==> old(self).nodes()[i].parent is Some,
        ensures
            final(self).ok(),
            final(self).issued() == old(self).issued(),
            final(self).rank_cap() == old(self).rank_cap(),
            forall|j: usize| final(self).rank(j) == old(self).rank(j),
            final(self).nodes() == old(self).nodes().insert(
                i,
                old(self).nodes()[i].with_marked(marked),
            ),
    {
        let ghost before = *self;
        match &mut self.slots[i].node {
            Some(node) => {
                node.marked = marked;
            },
            None => {},
        }
        proof {
            assert(self.nodes() =~= before.nodes().insert(i, before.nodes()[i].with_marked(marked)));
            before.lemma_rewrite(*self, i);
        }
    }

    /// Replaces the value of the node in slot `i`.
    pub fn set_value(&mut self, i: usize, value: T)
        requires
            old(self).ok(),
            old(self).nodes().dom().contains(i),
        ensures
            final(self).ok(),
            final(self).issued() == old(self).issued(),
            final(self).rank_cap() == old(self).rank_cap(),
            forall|j: usize| final(self).rank(j) == old(self).rank(j),
            final(self).nodes() == old(self).nodes().insert(
                i,
                old(self).nodes()[i].with_value(value),
            ),
    {
        let ghost before = *self;
        match &mut self.slots[i].node {
            Some(node) => {
                node.value = value;
            },
            None => {},
        }
        proof {
            assert(self.nodes() =~= before.nodes().insert(i, before.nodes()[i].with_value(value)));
            before.lemma_rewrite(*self, i);
        }
    }

    /// The invariant survives a change to the value or the mark of one node.
    proof fn lemma_rewrite(&self, after: Self, i: usize)
        requires
            self.ok(),
            self.live(i as int),
            after.slots@.len() == self.slots@.len(),
            after.free == self.free,
            after.rank == self.rank,
            after.cap == self.cap,
            after.count == self.count,
            forall|j: int| 0 <= j < self.slots@.len() && j != i ==> after.slots@[j] == self.slots@[j],
            after.slots@[i as int].generation == self.slots@[i as int].generation,
            after.live(i as int),
            after.at(i as int).parent == self.at(i as int).parent,
            after.at(i as int).children == self.at(i as int).children,
            after.at(i as int).degree == self.at(i as int).degree,
            after.at(i as int).marked ==> after.at(i as int).parent is Some,
        ensures
            after.ok(),
            after.issued() == self.issued(),
    {
        let a = self.nodes();
        let b = after.nodes();
        Self::lemma_filled_same(self.slots@, after.slots@);
        assert forall|j: usize| #[trigger] b.dom().contains(j) implies a.dom().contains(j)
            && b[j].handle == a[j].handle && b[j].parent == a[j].parent && b[j].children
            == a[j].children && (b[j].marked ==> b[j].parent is Some) by {
            assert(after.live(j as int));
            if j != i {
                assert(after.slots@[j as int] == self.slots@[j as int]);
            }
            assert(self.live(j as int));
            assert(a.dom().contains(j));
        }
        assert forall|j: usize| #[trigger] a.dom().contains(j) implies b.dom().contains(j) by {
            assert(after.live(j as int));
        }
        assert forall|j: usize, k: int|
            b.dom().contains(j) && 0 <= k < b[j].children.len() implies child_ok(
            b,
            j,
            #[trigger] b[j].children[k],
        ) by {
            assert(child_ok(a, j, a[j].children[k]));
        }
        assert forall|c: usize| #[trigger]
            b.dom().contains(c) && b[c].parent is Some implies parent_ok(b, c, b[c].parent->0) by {
            assert(parent_ok(a, c, a[c].parent->0));
        }
        assert forall|k: int| 0 <= k < after.free@.len() implies (#[trigger] after.free@[k])
            < after.slots@.len() && !after.live(after.free@[k] as int) by {
            assert(!self.live(self.free@[k] as int));
        }
        assert forall|j: int| #[trigger] after.live(j) implies after.at(j).degree == after.at(
            j,
        ).children@.len() by {
            assert(self.live(j));
        }
        assert forall|c: int| #[trigger] after.live(c) && after.at(c).parent is Some implies after.at(
            c,
        ).parent->0 < after.slots@.len() && after.rank@[c] < after.rank@[after.at(
            c,
        ).parent->0 as int] by {
            assert(self.live(c));
        }
        assert(after.issued() =~= self.issued());
    }

    /// The node in slot `j` is the node in slot `a` or descends from it.
    pub closed spec fn below(&self, a: usize, j: usize) -> bool
        decreases self.rank_cap() - self.rank(j),
        when self.ok() && self.nodes().dom().contains(j)
    {
        j == a || (self.at(j as int).parent is Some && self.below(a, self.at(j as int).parent->0))
    }

    /// What it is to be below a node: to be the node, or to have a parent
    /// that is below it.
    pub proof fn lemma_below(&self, a: usize, j: usize)
        requires
            self.ok(),
            self.nodes().dom().contains(j),
        ensures
            self.below(a, j) <==> j == a || (self.nodes()[j].parent is Some && self.below(
                a,
                self.nodes()[j].parent->0,
            )),
    {
    }

    /// Every node is below a node without a parent.
    pub proof fn lemma_has_root(&self, j: usize) -> (r: usize)
        requires
            self.ok(),
            self.nodes().dom().contains(j),
        ensures
            self.nodes().dom().contains(r),
            self.nodes()[r].parent is None,
            self.below(r, j),
        decreases self.rank_cap() - self.rank(j),
    {
        assert(self.live(j as int));
        if self.at(j as int).parent is Some {
            let p = self.at(j as int).parent->0;
            assert(parent_ok(self.nodes(), j, p));
            self.lemma_has_root(p)
        } else {
            j
        }
    }

    /// While a tree is taken apart from the top, a node of it that is
    /// neither waiting nor gone still has its parent. When none is
    /// waiting, none is left.
    proof fn lemma_none_left(&self, before: Self, root: usize, j: usize)
        requires
            before.ok(),
            before.live(root as int),
            before.at(root as int).parent is None,
            self.slots@.len() == before.slots@.len(),
            forall|q: int| #[trigger]
                self.live(q) ==> before.live(q) && self.slots@[q] == before.slots@[q],
            forall|q: usize|
                self.live(q as int) && #[trigger] before.below(root, q) ==> before.at(
                    q as int,
                ).parent is Some && self.live(before.at(q as int).parent->0 as int),
            before.below(root, j),
            before.live(j as int),
        ensures
            !self.live(j as int),
        decreases before.cap@ - before.rank@[j as int],
    {
        if self.live(j as int) {
            let p = before.at(j as int).parent->0;
            assert(before.nodes().dom().contains(j));
            assert(before.live(p as int));
            self.lemma_none_left(before, root, p);
        }
    }

    /// Takes the tree under the root in slot `root` out of the store: the
    /// root and every node below it. Their handles are dead from here on.
    /// The nodes are taken from the top down, children after their parent.
    pub fn release_subtree(&mut self, root: usize)
        requires
            old(self).ok(),
            old(self).nodes().dom().contains(root),
            old(self).nodes()[root].parent is None,
        ensures
            final(self).ok(),
            final(self).issued() == old(self).issued(),
            final(self).nodes() == old(self).nodes().remove_keys(
                Set::new(|j: usize| old(self).below(root, j)),
            ),
    {
        let ghost before = *self;
        let mut stack: Vec<usize> = Vec::new();
        stack.push(root);
        proof {
            before.lemma_ok();
            assert(stack@[0] == root);
            assert(before.live(root as int));
            assert forall|q: usize|
                self.live(q as int) && #[trigger] before.below(root, q) implies stack@.contains(q)
                || (before.at(q as int).parent is Some && self.live(
                before.at(q as int).parent->0 as int,
            )) by {
                assert(before.nodes().dom().contains(q));
                if q != root {
                    assert(parent_ok(before.nodes(), q, before.nodes()[q].parent->0));
                    assert(before.live(before.at(q as int).parent->0 as int));
                }
            }
        }
        while stack.len() > 0
            invariant
                before.ok(),
                forest_ok(before.nodes()),
                before.live(root as int),
                before.at(root as int).parent is None,
                self.slots@.len() == before.slots@.len(),
                self.rank == before.rank,
                self.cap == before.cap,
                self.count == Self::filled(self.slots@),
                self.free@.no_duplicates(),
                forall|k: int|
                    0 <= k < self.free@.len() ==> (#[trigger] self.free@[k]) < self.slots@.len()
                        && !self.live(self.free@[k] as int),
                self.issued() == before.issued(),
                forall|q: int| #[trigger]
                    self.live(q) ==> before.live(q) && self.slots@[q] == before.slots@[q],
                forall|q: usize|
                    before.live(q as int) && !self.live(q as int) ==> #[trigger] before.below(
                        root,
                        q,
                    ),
                forall|k: int|
                    0 <= k < stack@.len() ==> (#[trigger] stack@[k]) < self.slots@.len()
                        && before.live(stack@[k] as int) && before.below(root, stack@[k]),
                forall|q: usize|
                    self.live(q as int) && #[trigger] before.below(root, q) ==> stack@.contains(q)
                        || (before.at(q as int).parent is Some && self.live(
                        before.at(q as int).parent->0 as int,
                    )),
            decreases Self::filled(self.slots@), stack@.len(),
        {
            let ghost prev = *self;
            let ghost waiting = stack@;
            let j = match stack.pop() {
                Some(j) => j,
                None => vstd::pervasive::unreached(),
            };
            assert(waiting[waiting.len() - 1] == j);
            let ghost rest = stack@;
            assert(rest =~= waiting.drop_last());
            let node = self.slots[j].node.take();
            match node {
                Some(node) => {
                    let ghost kids = node.children@;
                    assert(prev.live(j as int));
                    assert(kids == before.at(j as int).children@);
                    let mut k: usize = 0;
                    while k < node.children.len()
                        invariant
                            k <= kids.len(),
                            kids == node.children@,
                            stack@ == rest + kids.take(k as int),
                        decreases kids.len() - k,
                    {
                        stack.push(node.children[k]);
                        proof {
                            assert(kids.take(k + 1) =~= kids.take(k as int).push(kids[k as int]));
                            assert(stack@ =~= rest + kids.take(k + 1));
                        }
                        k += 1;
                    }
                    assert(kids.take(kids.len() as int) =~= kids);
                    proof {
                        prev.lemma_not_free(j);
                    }
                    if self.slots[j].generation < u64::MAX {
                        self.slots[j].generation = self.slots[j].generation + 1;
                        self.free.push(j);
                    }
                    proof {
                        assert(self.slots@ =~= prev.slots@.update(j as int, self.slots@[j as int]));
                        Self::lemma_filled_less(prev.slots@, j as int, self.slots@[j as int]);
                    }
                    self.count = self.count - 1;
                    proof {
                        assert(!self.live(j as int));
                        assert forall|q: int| #[trigger] self.live(q) implies before.live(q)
                            && self.slots@[q] == before.slots@[q] by {
                            assert(prev.live(q));
                        }
                        assert forall|q: usize|
                            before.live(q as int) && !self.live(q as int) implies #[trigger] before.below(
                            root,
                            q,
                        ) by {
                            if q != j {
                                assert(!prev.live(q as int));
                            }
                        }
                        assert forall|n: int| 0 <= n < self.free@.len() implies (
                        #[trigger] self.free@[n]) < self.slots@.len() && !self.live(
                            self.free@[n] as int,
                        ) by {
                            if n < prev.free@.len() {
                                assert(!prev.live(prev.free@[n] as int));
                            }
                        }
                        assert(self.issued() =~= prev.issued()) by {
                            assert forall|h: Handle| self.issued().contains(h)
                                <==> prev.issued().contains(h) by {
                                if h.index < prev.slots@.len() && h.index != j {
                                    if prev.free@.contains(h.index) {
                                        let n = choose|n: int|
                                            0 <= n < prev.free@.len() && prev.free@[n] == h.index;
                                        assert(self.free@[n] == h.index);
                                    }
                                }
                                if h.index == j && self.free@.len() > prev.free@.len() {
                                    assert(self.free@[prev.free@.len() as int] == j);
                                }
                            }
                        }
                        assert forall|n: int| 0 <= n < stack@.len() implies (#[trigger] stack@[n])
                            < self.slots@.len() && before.live(stack@[n] as int) && before.below(
                            root,
                            stack@[n],
                        ) by {
                            if n < rest.len() {
                                assert(stack@[n] == waiting[n]);
                            } else {
                                let c = kids[n - rest.len()];
                                assert(stack@[n] == c);
                                assert(before.nodes().dom().contains(j));
                                assert(child_ok(
                                    before.nodes(),
                                    j,
                                    before.nodes()[j].children[n - rest.len()],
                                ));
                                assert(before.live(c as int));
                                assert(before.nodes().dom().contains(c));
                            }
                        }
                        assert forall|q: usize|
                            self.live(q as int) && #[trigger] before.below(
                                root,
                                q,
                            ) implies stack@.contains(q) || (before.at(q as int).parent is Some
                            && self.live(before.at(q as int).parent->0 as int)) by {
                            assert(prev.live(q as int));
                            assert(q != j);
                            if waiting.contains(q) {
                                let n = choose|n: int| 0 <= n < waiting.len() && waiting[n] == q;
                                assert(n < rest.len());
                                assert(stack@[n] == q);
                            } else if before.at(q as int).parent->0 == j {
                                assert(before.nodes().dom().contains(q));
                                assert(parent_ok(before.nodes(), q, j));
                                let n = choose|n: int| 0 <= n < kids.len() && kids[n] == q;
                                assert(stack@[rest.len() + n] == q);
                            }
                        }
                    }
                },
                None => {
                    proof {
                        assert(!prev.live(j as int));
                        assert(self.slots@ =~= prev.slots@);
                        assert(self.issued() =~= prev.issued());
                        assert forall|q: int| #[trigger] self.live(q) implies before.live(q)
                            && self.slots@[q] == before.slots@[q] by {
                            assert(prev.live(q));
                        }
                        assert forall|q: usize|
                            before.live(q as int) && !self.live(q as int) implies #[trigger] before.below(
                            root,
                            q,
                        ) by {
                            assert(!prev.live(q as int));
                        }
                        assert forall|n: int| 0 <= n < self.free@.len() implies (
                        #[trigger] self.free@[n]) < self.slots@.len() && !self.live(
                            self.free@[n] as int,
                        ) by {
                            assert(!prev.live(prev.free@[n] as int));
                        }
                        assert forall|q: usize|
                            self.live(q as int) && #[trigger] before.below(
                                root,
                                q,
                            ) implies stack@.contains(q) || (before.at(q as int).parent is Some
                            && self.live(before.at(q as int).parent->0 as int)) by {
                            assert(prev.live(q as int));
                            if waiting.contains(q) {
                                let n = choose|n: int| 0 <= n < waiting.len() && waiting[n] == q;
                                assert(stack@[n] == q);
                            }
                        }
                    }
                },
            }
        }
        proof {
            let gone = Set::new(|j: usize| before.below(root, j));
            assert forall|q: usize|
                self.live(q as int) && #[trigger] before.below(root, q) implies before.at(
                q as int,
            ).parent is Some && self.live(before.at(q as int).parent->0 as int) by {
                assert(!stack@.contains(q));
            }
            assert forall|j: usize| #[trigger] self.live(j as int) implies !before.below(root, j) by {
                if before.below(root, j) {
                    self.lemma_none_left(before, root, j);
                }
            }
            assert(self.nodes() =~= before.nodes().remove_keys(gone));
            assert forall|c: usize| #[trigger]
                before.nodes().dom().contains(c) && before.nodes()[c].parent is Some implies (
            gone.contains(c) <==> gone.contains(before.nodes()[c].parent->0)) by {
                assert(before.live(c as int));
                assert(parent_ok(before.nodes(), c, before.nodes()[c].parent->0));
            }
            lemma_forest_remove_trees(before.nodes(), gone);
            assert forall|j: int| #[trigger] self.live(j) implies self.at(j).degree == self.at(
                j,
            ).children@.len() by {
                assert(before.live(j));
            }
            assert forall|c: int| #[trigger] self.live(c) && self.at(c).parent is Some implies self.at(
                c,
            ).parent->0 < self.slots@.len() && self.rank@[c] < self.rank@[self.at(c).parent->0 as int] by {
                assert(before.live(c));
            }
        }
    }

    /// A slot that holds a node is not on the list of empty slots.
    proof fn lemma_not_free(&self, i: usize)
        requires
            self.live(i as int),
            forall|k: int|
                0 <= k < self.free@.len() ==> (#[trigger] self.free@[k]) < self.slots@.len()
                    && !self.live(self.free@[k] as int),
        ensures
            !self.free@.contains(i),
    {
        if self.free@.contains(i) {
            let k = choose|k: int| 0 <= k < self.free@.len() && self.free@[k] == i;
            assert(!self.live(self.free@[k] as int));
        }
    }
}

} // verus!

//! The heap: the roots of the forest, and which of them is the minimum.
//!
//! To its callers a heap is a map from handle to value, [`FibHeap::view`],
//! together with the handle of the minimum, [`FibHeap::min_handle`], and the
//! set of handles given out so far, [`FibHeap::issued`]. Behind that stands
//! the forest, [`FibHeap::forest`], with its roots, [`FibHeap::roots`]; the
//! contracts say what each call does to both.
use crate::order::{
    le, lemma_le_refl, lemma_le_trans, lemma_lt_le, lemma_lt_le_trans, less, lt,
    obeys_total_order,
};
use crate::heap::consolidate::{consolidated, relinked};
use crate::heap::degrees::{degrees_ok, lemma_degrees_insert_single};
use crate::heap::weight::{fib, lemma_fib_rises, lemma_weight};
use crate::timer::{Instrument, NoInstrument};
use crate::store::{
    forest_ok, lemma_values_count, lemma_values_insert, parent_ok, position, values_by_handle,
    Handle, NodeModel, Store,
};
use vstd::prelude::*;

pub mod consolidate;
pub mod cut;
pub mod degrees;
pub mod weight;

verus! {

/// Why [`FibHeap::decrease_key`] left the heap as it was.
#[derive(Clone, Copy, Debug, PartialEq, Eq, Structural)]
pub enum HeapError {
    /// The handle names no node of the heap: the node was extracted or
    /// cleared away.
    InvalidHandle,
    /// The new value sorts after the node's value.
    InvalidOperation,
}

/// A Fibonacci heap of values of type `T`, smallest first.
pub struct FibHeap<T: PartialOrd> {
    store: Store<T>,
    /// The slots of the roots.
    roots: Vec<usize>,
    /// The slot of a root that no value in the heap sorts before.
    min: Option<usize>,
    /// With `Some(t)`, an insertion that leaves more than `t` roots
    /// consolidates at once.
    eager_threshold: Option<usize>,
}

/// No child sorts before its parent. The node named by `except` may.
pub open spec fn ordered<T: PartialOrd>(
    nodes: Map<usize, NodeModel<T>>,
    except: Option<usize>,
) -> bool {
    forall|c: usize| #[trigger]
        nodes.dom().contains(c) && nodes[c].parent is Some && Some(c) != except ==> le(
            nodes[nodes[c].parent->0].value,
            nodes[c].value,
        )
}

/// Each of `roots` is a node without a parent, and none comes twice.
pub open spec fn roots_valid<T>(nodes: Map<usize, NodeModel<T>>, roots: Seq<usize>) -> bool {
    &&& roots.no_duplicates()
    &&& forall|k: int|
        0 <= k < roots.len() ==> nodes.dom().contains(#[trigger] roots[k])
            && nodes[roots[k]].parent is None
}

/// Every node without a parent is among `roots`.
pub open spec fn roots_complete<T>(nodes: Map<usize, NodeModel<T>>, roots: Seq<usize>) -> bool {
    forall|i: usize| #[trigger]
        nodes.dom().contains(i) && nodes[i].parent is None ==> roots.contains(i)
}

/// `min` is a root that no root sorts before; there is none only when there
/// is no root.
pub open spec fn min_ok<T: PartialOrd>(
    nodes: Map<usize, NodeModel<T>>,
    roots: Seq<usize>,
    min: Option<usize>,
) -> bool {
    match min {
        Some(m) => roots.contains(m) && forall|k: int|
            0 <= k < roots.len() ==> le(nodes[m].value, nodes[#[trigger] roots[k]].value),
        None => roots.len() == 0,
    }
}

/// `min` is the first of the smallest roots: every root that stands before
/// it sorts strictly after it.
pub open spec fn min_first<T: PartialOrd>(
    nodes: Map<usize, NodeModel<T>>,
    roots: Seq<usize>,
    min: Option<usize>,
) -> bool {
    min matches Some(m) ==> forall|k: int|
        0 <= k < position(roots, m) ==> lt(nodes[m].value, nodes[#[trigger] roots[k]].value)
}

impl<T: PartialOrd> View for FibHeap<T> {
    type V = Map<Handle, T>;

    /// The values in the heap, each under the handle that `insert` returned
    /// for it.
    closed spec fn view(&self) -> Map<Handle, T> {
        values_by_handle(self.store.nodes())
    }
}

impl<T: PartialOrd> Default for FibHeap<T> {
    /// The same as [`FibHeap::new`].
    fn default() -> (heap: Self)
        ensures
            heap.wf(),
            heap@ == Map::<Handle, T>::empty(),
            heap.issued() == Set::<Handle>::empty(),
            heap.forest() == Map::<usize, NodeModel<T>>::empty(),
            heap.roots() == Seq::<usize>::empty(),
            heap.min_slot() is None,
            heap.min_handle() is None,
            heap.threshold() is None,
    {
        FibHeap::new()
    }
}

impl<T: PartialOrd> FibHeap<T> {
    /// The nodes of the heap with their links, by slot.
    pub closed spec fn forest(&self) -> Map<usize, NodeModel<T>> {
        self.store.nodes()
    }

    /// The slots of the roots: after a consolidation by number of children,
    /// and behind them those that have become roots since, in the order in
    /// which they did.
    pub closed spec fn roots(&self) -> Seq<usize> {
        self.roots@
    }

    /// The slot of the minimum root.
    pub closed spec fn min_slot(&self) -> Option<usize> {
        self.min
    }

    /// Every handle that this heap has returned from `insert` so far.
    pub closed spec fn issued(&self) -> Set<Handle> {
        self.store.issued()
    }

    /// No line of ancestors in the forest is longer than this.
    pub closed spec fn depth_bound(&self) -> nat {
        self.store.rank_cap()
    }

    /// All of the invariant but what it says of the minimum and of the
    /// degrees. The node named by `except` may sort before its parent.
    spec fn wf_roots(&self, except: Option<usize>) -> bool {
        &&& self.store.ok()
        &&& forest_ok(self.store.nodes())
        &&& ordered(self.store.nodes(), except)
        &&& roots_valid(self.store.nodes(), self.roots@)
        &&& roots_complete(self.store.nodes(), self.roots@)
    }

    /// All of the invariant but the law of the degrees.
    spec fn wf_order(&self) -> bool {
        &&& self.wf_roots(None)
        &&& min_ok(self.store.nodes(), self.roots@, self.min)
    }

    /// The heap's invariant. [`FibHeap::lemma_wf`] says what it holds.
    pub closed spec fn wf(&self) -> bool {
        &&& self.wf_order()
        &&& degrees_ok(self.store.nodes(), None)
    }

    /// What the invariant says of the forest: the nodes form a forest in
    /// which no child sorts before its parent and the law of the degrees
    /// holds, the roots are the nodes without a parent, and the minimum is a
    /// root that no root sorts before.
    pub open spec fn shape_ok(&self) -> bool {
        &&& forest_ok(self.forest())
        &&& ordered(self.forest(), None)
        &&& degrees_ok(self.forest(), None)
        &&& roots_valid(self.forest(), self.roots())
        &&& roots_complete(self.forest(), self.roots())
        &&& min_ok(self.forest(), self.roots(), self.min_slot())
    }

    /// How the heap that callers see hangs on the forest: the values are
    /// those of the nodes, and the minimum is the node in the slot of the
    /// minimum.
    pub proof fn lemma_wf(&self)
        requires
            self.wf(),
        ensures
            self.shape_ok(),
            self@ == values_by_handle(self.forest()),
            self.min_handle() == match self.min_slot() {
                Some(m) => Some(self.forest()[m].handle),
                None => None,
            },
    {
    }

    /// The handle of the node that `get_min` shows and `extract_min` takes.
    pub closed spec fn min_handle(&self) -> Option<Handle> {
        match self.min {
            Some(m) => Some(self.store.nodes()[m].handle),
            None => None,
        }
    }

    /// The number of children of each root.
    pub open spec fn root_degrees(&self) -> Seq<nat> {
        Seq::new(self.roots().len(), |k: int| self.forest()[self.roots()[k]].children.len())
    }

    /// No two roots have the same number of children, and the roots stand
    /// in the order of their numbers of children.
    pub open spec fn is_consolidated(&self) -> bool {
        forall|i: int, j: int|
            0 <= i < j < self.root_degrees().len() ==> self.root_degrees()[i]
                < self.root_degrees()[j]
    }

    /// The number of roots above which an insertion consolidates, if any.
    pub closed spec fn threshold(&self) -> Option<usize> {
        self.eager_threshold
    }

    /// No value in the heap sorts before that of the minimum root.
    proof fn lemma_above_min(&self, i: usize)
        requires
            obeys_total_order::<T>(),
            self.wf_order(),
            self.store.nodes().dom().contains(i),
        ensures
            self.min is Some,
            self.store.nodes().dom().contains(self.min->0),
            le(self.store.nodes()[self.min->0].value, self.store.nodes()[i].value),
        decreases self.store.rank_cap() - self.store.rank(i),
    {
        let nodes = self.store.nodes();
        self.store.lemma_ok();
        match nodes[i].parent {
            None => {
                let k = choose|k: int| 0 <= k < self.roots@.len() && self.roots@[k] == i;
                assert(nodes.dom().contains(self.roots@[k]));
                let m = self.min->0;
                let n = choose|n: int| 0 <= n < self.roots@.len() && self.roots@[n] == m;
                assert(nodes.dom().contains(self.roots@[n]));
            },
            Some(p) => {
                assert(parent_ok(nodes, i, p));
                self.lemma_above_min(p);
                lemma_le_trans(nodes[self.min->0].value, nodes[p].value, nodes[i].value);
            },
        }
    }

    /// What the invariant says of the minimum: there is one exactly when the
    /// heap holds a value, it is in the heap, and no value of the heap sorts
    /// before its value. Every handle in the heap was given out by it.
    pub proof fn lemma_min_is_least(&self)
        requires
            obeys_total_order::<T>(),
            self.wf(),
        ensures
            self.min_handle() is None <==> self@ == Map::<Handle, T>::empty(),
            self.min_handle() matches Some(m) ==> self@.dom().contains(m) && forall|h: Handle|
                self@.dom().contains(h) ==> le(self@[m], #[trigger] self@[h]),
            self@.dom().subset_of(self.issued()),
    {
        let nodes = self.store.nodes();
        self.store.lemma_ok();
        match self.min {
            Some(m) => {
                let n = choose|n: int| 0 <= n < self.roots@.len() && self.roots@[n] == m;
                assert(nodes.dom().contains(self.roots@[n]));
                assert(self@.dom().contains(nodes[m].handle));
                assert forall|h: Handle| self@.dom().contains(h) implies le(
                    self@[nodes[m].handle],
                    #[trigger] self@[h],
                ) by {
                    self.lemma_above_min(h.slot());
                }
            },
            None => {
                assert forall|h: Handle| !self@.dom().contains(h) by {
                    if self@.dom().contains(h) {
                        self.lemma_above_min(h.slot());
                    }
                }
                assert(self@ =~= Map::<Handle, T>::empty());
            },
        }
        assert forall|h: Handle| self@.dom().contains(h) implies self.issued().contains(h) by {
            assert(nodes.dom().contains(h.slot()));
        }
    }

    /// The heap holds finitely many values, one for each node.
    pub proof fn lemma_finite(&self)
        requires
            self.wf(),
        ensures
            self@.dom().finite(),
            self.forest().dom().finite(),
            self@.dom().len() == self.forest().dom().len(),
    {
        self.store.lemma_ok();
        self.store.lemma_node_count();
        lemma_values_count(self.store.nodes());
    }

    /// What the marks are kept for: a node with `d` children has at least
    /// `fib(d + 2)` nodes at or below it, so no node of a heap of `n` values
    /// has more children than the Fibonacci numbers up to `n` allow.
    pub proof fn lemma_degree_bound(&self, i: usize)
        requires
            self.wf(),
            self.forest().dom().contains(i),
        ensures
            fib(self.forest()[i].children.len() + 2) <= self@.dom().len(),
    {
        lemma_weight(self.store, i);
        self.lemma_finite();
    }

    /// A consolidated heap has few roots: with `r` roots it holds at least
    /// `fib(r + 1)` values.
    pub proof fn lemma_few_roots(&self)
        requires
            self.wf(),
            self.is_consolidated(),
            self.roots().len() > 0,
        ensures
            fib(self.roots().len() + 1) <= self@.dom().len(),
    {
        let last = self.roots().len() - 1;
        self.lemma_root_degrees(last);
        self.lemma_degree_bound(self.roots()[last]);
        lemma_fib_rises(self.roots().len() + 1, self.forest()[self.roots()[last]].children.len() + 2);
    }

    /// In a consolidated heap the `k`-th root, counted from 0, has at least
    /// `k` children.
    proof fn lemma_root_degrees(&self, k: int)
        requires
            self.is_consolidated(),
            0 <= k < self.roots().len(),
        ensures
            k <= self.root_degrees()[k],
        decreases k,
    {
        if k > 0 {
            self.lemma_root_degrees(k - 1);
        }
    }

    /// An empty heap that consolidates only when a value is extracted.
    pub fn new() -> (heap: Self)
        ensures
            heap.wf(),
            heap@ == Map::<Handle, T>::empty(),
            heap.issued() == Set::<Handle>::empty(),
            heap.forest() == Map::<usize, NodeModel<T>>::empty(),
            heap.roots() == Seq::<usize>::empty(),
            heap.min_slot() is None,
            heap.min_handle() is None,
            heap.threshold() is None,
    {
        let heap = FibHeap { store: Store::new(), roots: Vec::new(), min: None, eager_threshold: None };
        assert(heap@ =~= Map::<Handle, T>::empty());
        assert(heap.roots() =~= Seq::<usize>::empty());
        heap
    }

    /// An empty heap that also consolidates whenever an insertion leaves
    /// more than `threshold` roots. This keeps the list of roots short at
    /// the price of the constant-time bound on `insert`.
    pub fn with_eager_threshold(threshold: usize) -> (heap: Self)
        ensures
            heap.wf(),
            heap@ == Map::<Handle, T>::empty(),
            heap.issued() == Set::<Handle>::empty(),
            heap.forest() == Map::<usize, NodeModel<T>>::empty(),
            heap.roots() == Seq::<usize>::empty(),
            heap.min_slot() is None,
            heap.min_handle() is None,
            heap.threshold() == Some(threshold),
    {
        let heap = FibHeap {
            store: Store::new(),
            roots: Vec::new(),
            min: None,
            eager_threshold: Some(threshold),
        };
        assert(heap@ =~= Map::<Handle, T>::empty());
        assert(heap.roots() =~= Seq::<usize>::empty());
        heap
    }

    /// The smallest value in the heap, or `None` if the heap is empty. Among
    /// equal smallest values it is the one under [`FibHeap::min_handle`].
    pub fn get_min(&self) -> (min: Option<&T>)
        requires
            obeys_total_order::<T>(),
            self.wf(),
        ensures
            match min {
                Some(v) => {
                    &&& self.min_handle() is Some
                    &&& self@.dom().contains(self.min_handle()->0)
                    &&& *v == self@[self.min_handle()->0]
                    &&& forall|h: Handle| self@.dom().contains(h) ==> le(*v, #[trigger] self@[h])
                },
                None => self.min_handle() is None && self@ == Map::<Handle, T>::empty(),
            },
    {
        proof {
            self.lemma_min_is_least();
        }
        match self.min {
            Some(m) => {
                proof {
                    let n = choose|n: int| 0 <= n < self.roots@.len() && self.roots@[n] == m;
                    assert(self.store.nodes().dom().contains(self.roots@[n]));
                    self.store.lemma_ok();
                }
                Some(self.store.value(m))
            },
            None => None,
        }
    }

    /// Whether the next insertion will consolidate: a threshold is set, and
    /// one more root goes over it.
    pub open spec fn consolidates_on_insert(&self) -> bool {
        self.threshold() matches Some(t) && self.roots().len() + 1 > t
    }

    /// Makes the parentless node in slot `i` one of the roots, and the
    /// minimum if its value sorts before that of the minimum so far.
    fn add_root(&mut self, i: usize)
        requires
            obeys_total_order::<T>(),
            old(self).store.ok(),
            ordered(old(self).store.nodes(), None),
            roots_valid(old(self).store.nodes(), old(self).roots@),
            min_ok(old(self).store.nodes(), old(self).roots@, old(self).min),
            old(self).store.nodes().dom().contains(i),
            old(self).store.nodes()[i].parent is None,
            !old(self).roots@.contains(i),
            forall|j: usize| #[trigger]
                old(self).store.nodes().dom().contains(j) && old(self).store.nodes()[j].parent is None
                    && j != i ==> old(self).roots@.contains(j),
        ensures
            final(self).wf_order(),
            final(self).store == old(self).store,
            final(self).eager_threshold == old(self).eager_threshold,
            final(self).roots@ == old(self).roots@.push(i),
            final(self).min == Some(
                match old(self).min {
                    Some(m) if !lt(
                        old(self).store.nodes()[i].value,
                        old(self).store.nodes()[m].value,
                    ) => m,
                    _ => i,
                },
            ),
    {
        let ghost nodes = self.store.nodes();
        let ghost before = self.roots@;
        let better = match self.min {
            None => true,
            Some(m) => {
                proof {
                    let n = choose|n: int| 0 <= n < before.len() && before[n] == m;
                    assert(nodes.dom().contains(before[n]));
                }
                less(self.store.value(i), self.store.value(m))
            },
        };
        let ghost old_min = self.min;
        if better {
            self.min = Some(i);
        }
        self.roots.push(i);
        proof {
            self.store.lemma_ok();
            let after = self.roots@;
            assert(after[before.len() as int] == i);
            assert forall|j: usize| #[trigger]
                nodes.dom().contains(j) && nodes[j].parent is None implies after.contains(j) by {
                if j != i {
                    let n = choose|n: int| 0 <= n < before.len() && before[n] == j;
                    assert(after[n] == j);
                }
            }
            let m = self.min->0;
            if !better {
                let n = choose|n: int| 0 <= n < before.len() && before[n] == m;
                assert(after[n] == m);
            }
            assert forall|k: int| 0 <= k < after.len() implies le(
                nodes[m].value,
                nodes[#[trigger] after[k]].value,
            ) by {
                if k == before.len() {
                    if better {
                        lemma_le_refl(nodes[i].value);
                    }
                } else {
                    assert(after[k] == before[k]);
                    if better {
                        let was = old_min->0;
                        lemma_lt_le_trans(nodes[i].value, nodes[was].value, nodes[before[k]].value);
                        lemma_lt_le(nodes[i].value, nodes[before[k]].value);
                    }
                }
            }
        }
    }

    /// Puts `value` into the heap and returns the handle that names it from
    /// now on. The value becomes the minimum only if it sorts strictly
    /// before the minimum so far.
    ///
    /// In a heap made by [`FibHeap::with_eager_threshold`], an insertion
    /// that leaves more roots than the threshold consolidates; the minimum
    /// is then the first of the smallest roots, not necessarily the one
    /// before.
    pub fn insert(&mut self, value: T) -> (handle: Handle)
        requires
            obeys_total_order::<T>(),
            old(self).wf(),
        ensures
            final(self).wf(),
            !old(self).issued().contains(handle),
            final(self).issued() == old(self).issued().insert(handle),
            final(self)@ == old(self)@.insert(handle, value),
            final(self).threshold() == old(self).threshold(),
            !old(self).forest().dom().contains(handle.slot()),
            if old(self).consolidates_on_insert() {
                &&& (final(self).forest(), final(self).roots(), final(self).min_slot())
                    == consolidated(
                    old(self).forest().insert(handle.slot(), NodeModel::single(handle, value)),
                    old(self).roots().push(handle.slot()),
                )
                &&& final(self).is_consolidated()
                &&& min_first(final(self).forest(), final(self).roots(), final(self).min_slot())
                &&& relinked(
                    old(self).forest().insert(handle.slot(), NodeModel::single(handle, value)),
                    final(self).forest(),
                )
            } else {
                &&& final(self).forest() == old(self).forest().insert(
                    handle.slot(),
                    NodeModel::single(handle, value),
                )
                &&& final(self).roots() == old(self).roots().push(handle.slot())
                &&& final(self).min_handle() == Some(
                    match old(self).min_handle() {
                        Some(m) if !lt(value, old(self)@[m]) => m,
                        _ => handle,
                    },
                )
            },
    {
        let mut none = NoInstrument;
        self.insert_with(value, &mut none)
    }

    /// As [`FibHeap::insert`], and reports the phases of a consolidation,
    /// if there is one, to `instrument`.
    pub fn insert_with<I: Instrument>(&mut self, value: T, instrument: &mut I) -> (handle: Handle)
        requires
            obeys_total_order::<T>(),
            old(self).wf(),
        ensures
            final(self).wf(),
            !old(self).issued().contains(handle),
            final(self).issued() == old(self).issued().insert(handle),
            final(self)@ == old(self)@.insert(handle, value),
            final(self).threshold() == old(self).threshold(),
            !old(self).forest().dom().contains(handle.slot()),
            if old(self).consolidates_on_insert() {
                &&& (final(self).forest(), final(self).roots(), final(self).min_slot())
                    == consolidated(
                    old(self).forest().insert(handle.slot(), NodeModel::single(handle, value)),
                    old(self).roots().push(handle.slot()),
                )
                &&& final(self).is_consolidated()
                &&& min_first(final(self).forest(), final(self).roots(), final(self).min_slot())
                &&& relinked(
                    old(self).forest().insert(handle.slot(), NodeModel::single(handle, value)),
                    final(self).forest(),
                )
            } else {
                &&& final(self).forest() == old(self).forest().insert(
                    handle.slot(),
                    NodeModel::single(handle, value),
                )
                &&& final(self).roots() == old(self).roots().push(handle.slot())
                &&& final(self).min_handle() == Some(
                    match old(self).min_handle() {
                        Some(m) if !lt(value, old(self)@[m]) => m,
                        _ => handle,
                    },
                )
            },
    {
        let ghost nodes = self.store.nodes();
        proof {
            self.store.lemma_ok();
            self.lemma_min_is_least();
        }
        let (i, handle) = self.store.allocate(value);
        proof {
            let after = self.store.nodes();
            lemma_values_insert(nodes, i, NodeModel::single(handle, value));
            lemma_degrees_insert_single(nodes, i, NodeModel::single(handle, value), None);
            assert forall|c: usize| #[trigger]
                after.dom().contains(c) && after[c].parent is Some implies le(
                after[after[c].parent->0].value,
                after[c].value,
            ) by {
                assert(parent_ok(nodes, c, nodes[c].parent->0));
            }
            if self.roots@.contains(i) {
                let n = choose|n: int| 0 <= n < self.roots@.len() && self.roots@[n] == i;
                assert(nodes.dom().contains(self.roots@[n]));
            }
            if self.min is Some {
                let m = self.min->0;
                let n = choose|n: int| 0 <= n < self.roots@.len() && self.roots@[n] == m;
                assert(nodes.dom().contains(self.roots@[n]));
            }
            assert forall|k: int| 0 <= k < self.roots@.len() implies after.dom().contains(
                #[trigger] self.roots@[k],
            ) && after[self.roots@[k]].parent is None && after[self.roots@[k]]
                == nodes[self.roots@[k]] by {
                assert(nodes.dom().contains(self.roots@[k]));
            }
        }
        self.add_root(i);
        match self.eager_threshold {
            Some(threshold) => {
                if self.roots.len() > threshold {
                    self.consolidate(instrument);
                }
            },
            None => {},
        }
        handle
    }

    /// Empties the heap: takes out root after root with all that is below
    /// it. Every handle given out so far is dead from here on, and the heap
    /// is as good as new.
    pub fn clear(&mut self)
        requires
            old(self).wf(),
        ensures
            final(self).wf(),
            final(self)@ == Map::<Handle, T>::empty(),
            final(self).issued() == old(self).issued(),
            final(self).forest() == Map::<usize, NodeModel<T>>::empty(),
            final(self).roots() == Seq::<usize>::empty(),
            final(self).min_slot() is None,
            final(self).min_handle() is None,
            final(self).threshold() == old(self).threshold(),
    {
        let ghost before = self.store.nodes();
        let ghost roots = self.roots@;
        let mut k: usize = 0;
        proof {
            self.store.lemma_ok();
        }
        while k < self.roots.len()
            invariant
                k <= roots.len(),
                roots == self.roots@,
                self.eager_threshold == old(self).eager_threshold,
                self.store.issued() == old(self).store.issued(),
                self.store.ok(),
                roots_valid(before, roots),
                self.store.nodes().submap_of(before),
                forall|n: int| 0 <= n < k ==> !self.store.nodes().dom().contains(#[trigger] roots[n]),
                forall|n: int|
                    k <= n < roots.len() ==> self.store.nodes().dom().contains(#[trigger] roots[n]),
            decreases roots.len() - k,
        {
            let root = self.roots[k];
            let ghost prev = self.store;
            proof {
                assert(self.store.nodes().dom().contains(roots[k as int]));
                assert(before.dom().contains(roots[k as int]));
                prev.lemma_below(root, root);
                assert forall|n: int| k < n < roots.len() implies !prev.below(
                    root,
                    #[trigger] roots[n],
                ) by {
                    assert(prev.nodes().dom().contains(roots[n]));
                    assert(before.dom().contains(roots[n]));
                    prev.lemma_below(root, roots[n]);
                }
            }
            self.store.release_subtree(root);
            k += 1;
        }
        self.roots.clear();
        self.min = None;
        proof {
            let left = self.store.nodes();
            assert forall|j: usize| !left.dom().contains(j) by {
                if left.dom().contains(j) {
                    let r = self.store.lemma_has_root(j);
                    assert(before.dom().contains(r));
                    let n = choose|n: int| 0 <= n < roots.len() && roots[n] == r;
                    assert(!left.dom().contains(roots[n]));
                }
            }
            assert(left =~= Map::<usize, NodeModel<T>>::empty());
            assert(self@ =~= Map::<Handle, T>::empty());
            assert(self.roots() =~= Seq::<usize>::empty());
        }
    }

    /// The number of values in the heap.
    pub fn len(&self) -> (n: usize)
        requires
            self.wf(),
        ensures
            n == self@.dom().len(),
    {
        proof {
            self.lemma_finite();
            self.store.lemma_node_count();
        }
        self.store.len()
    }

    /// The number of trees in the forest.
    pub fn root_count(&self) -> (n: usize)
        ensures
            n == self.roots().len(),
    {
        self.roots.len()
    }
}

} // verus!

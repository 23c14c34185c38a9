//! Lowering a value: `decrease_key`, the cut that moves a node to the roots,
//! and the cascade of cuts up the line of its ancestors.
use crate::heap::degrees::{
    degrees_ok, lemma_degrees_detach, lemma_degrees_mark, lemma_degrees_of_root,
    lemma_degrees_same_links, lemma_degrees_weaken,
};
use crate::heap::{min_ok, FibHeap, HeapError};
use crate::order::{
    le, lemma_le_refl, lemma_le_trans, lemma_lt_le, lemma_lt_le_trans, less, lt,
    obeys_total_order,
};
use crate::store::{
    child_ok, detached, forest_ok, lemma_forest_detach, lemma_same_values_trans,
    lemma_values_same, lemma_values_set, parent_ok, same_values, Handle, NodeModel,
};
use vstd::prelude::*;

verus! {

/// The forest and its roots after the cascade that starts at `p`, a node
/// that has just lost a child. A root is left alone. An unmarked node is
/// marked, and that is all. A marked node is cut and becomes the last of the
/// roots, and the cascade goes on at its parent. The cascade takes no more
/// than `fuel` steps; [`FibHeap::depth_bound`] is enough for any, as
/// [`FibHeap::lemma_depth_bound`] shows.
pub open spec fn cascaded<T>(
    nodes: Map<usize, NodeModel<T>>,
    roots: Seq<usize>,
    p: usize,
    fuel: nat,
) -> (Map<usize, NodeModel<T>>, Seq<usize>)
    decreases fuel,
{
    if fuel == 0 || nodes[p].parent is None {
        (nodes, roots)
    } else if !nodes[p].marked {
        (nodes.insert(p, nodes[p].with_marked(true)), roots)
    } else {
        cascaded(detached(nodes, p), roots.push(p), nodes[p].parent->0, (fuel - 1) as nat)
    }
}

/// The forest and its roots after the value of the node in slot `i` was
/// lowered to `value`. Where the value now sorts before that of the parent,
/// the node is cut and becomes the last of the roots, and a cascade starts
/// at the parent it had.
pub open spec fn lowered<T: PartialOrd>(
    nodes: Map<usize, NodeModel<T>>,
    roots: Seq<usize>,
    i: usize,
    value: T,
    fuel: nat,
) -> (Map<usize, NodeModel<T>>, Seq<usize>) {
    let set = nodes.insert(i, nodes[i].with_value(value));
    match nodes[i].parent {
        Some(p) if lt(value, nodes[p].value) => cascaded(detached(set, i), roots.push(i), p, fuel),
        _ => (set, roots),
    }
}

/// The ranks fall from parent to child, and no parent's is above `cap`.
pub open spec fn ranked<T>(
    nodes: Map<usize, NodeModel<T>>,
    rank: spec_fn(usize) -> nat,
    cap: nat,
) -> bool {
    forall|c: usize| #[trigger]
        nodes.dom().contains(c) && nodes[c].parent is Some ==> rank(c) < rank(
            nodes[c].parent->0,
        ) <= cap
}

/// A cascade has come to its end before it has taken as many steps as there
/// are ranks above the node at which it starts: with that many steps or with
/// more, the outcome is the same.
pub proof fn lemma_cascade_ends<T>(
    nodes: Map<usize, NodeModel<T>>,
    roots: Seq<usize>,
    p: usize,
    rank: spec_fn(usize) -> nat,
    cap: nat,
    fuel: nat,
)
    requires
        forest_ok(nodes),
        ranked(nodes, rank, cap),
        nodes.dom().contains(p),
        rank(p) <= cap,
        fuel >= cap - rank(p),
    ensures
        cascaded(nodes, roots, p, fuel) == cascaded(nodes, roots, p, (cap - rank(p)) as nat),
    decreases fuel,
{
    if nodes[p].parent is Some && nodes[p].marked {
        let up = nodes[p].parent->0;
        let cut = detached(nodes, p);
        assert(parent_ok(nodes, p, up));
        lemma_forest_detach(nodes, p);
        assert forall|c: usize| #[trigger] cut.dom().contains(c) && cut[c].parent is Some implies rank(
            c,
        ) < rank(cut[c].parent->0) <= cap by {
            assert(nodes.dom().contains(c));
        }
        lemma_cascade_ends(cut, roots.push(p), up, rank, cap, (fuel - 1) as nat);
        lemma_cascade_ends(cut, roots.push(p), up, rank, cap, (cap - rank(p) - 1) as nat);
    }
}

impl<T: PartialOrd> FibHeap<T> {
    /// The bound on the depth is fuel enough for any cascade: what
    /// [`lowered`] gives with it, it gives with any more.
    pub proof fn lemma_depth_bound(&self, i: usize, value: T, fuel: nat)
        requires
            self.wf(),
            self.forest().dom().contains(i),
            fuel >= self.depth_bound(),
        ensures
            lowered(self.forest(), self.roots(), i, value, fuel) == lowered(
                self.forest(),
                self.roots(),
                i,
                value,
                self.depth_bound(),
            ),
    {
        let nodes = self.store.nodes();
        let cap = self.store.rank_cap();
        let rank = |j: usize| self.store.rank(j);
        self.store.lemma_ok();
        if nodes[i].parent is Some && lt(value, nodes[nodes[i].parent->0].value) {
            let p = nodes[i].parent->0;
            let set = nodes.insert(i, nodes[i].with_value(value));
            let cut = detached(set, i);
            assert(parent_ok(nodes, i, p));
            assert(forest_ok(set)) by {
                assert forall|j: usize, k: int|
                    set.dom().contains(j) && 0 <= k < set[j].children.len() implies child_ok(
                    set,
                    j,
                    #[trigger] set[j].children[k],
                ) by {
                    assert(child_ok(nodes, j, nodes[j].children[k]));
                }
                assert forall|c: usize| #[trigger]
                    set.dom().contains(c) && set[c].parent is Some implies parent_ok(
                    set,
                    c,
                    set[c].parent->0,
                ) by {
                    assert(parent_ok(nodes, c, nodes[c].parent->0));
                }
            }
            lemma_forest_detach(set, i);
            assert forall|c: usize| #[trigger]
                cut.dom().contains(c) && cut[c].parent is Some implies rank(c) < rank(
                cut[c].parent->0,
            ) <= cap by {
                assert(nodes.dom().contains(c));
                assert(nodes.dom().contains(nodes[c].parent->0)) by {
                    assert(parent_ok(nodes, c, nodes[c].parent->0));
                }
            }
            lemma_cascade_ends(cut, self.roots@.push(i), p, rank, cap, fuel);
            lemma_cascade_ends(cut, self.roots@.push(i), p, rank, cap, cap);
        }
    }

    /// Cuts the node in slot `i` from its parent and makes it a root, the
    /// minimum if its value sorts before that of the minimum so far. The
    /// node's value may sort before its parent's when this is called.
    fn cut(&mut self, i: usize)
        requires
            obeys_total_order::<T>(),
            old(self).wf_roots(Some(i)),
            degrees_ok(old(self).store.nodes(), Some(i)),
            min_ok(old(self).store.nodes(), old(self).roots@, old(self).min),
            old(self).store.nodes().dom().contains(i),
            old(self).store.nodes()[i].parent is Some,
        ensures
            final(self).wf_order(),
            degrees_ok(final(self).store.nodes(), old(self).store.nodes()[i].parent),
            final(self).store.nodes() == detached(old(self).store.nodes(), i),
            final(self).roots@ == old(self).roots@.push(i),
            final(self).min == Some(
                match old(self).min {
                    Some(m) if !lt(
                        old(self).store.nodes()[i].value,
                        old(self).store.nodes()[m].value,
                    ) => m,
                    _ => i,
                },
            ),
            final(self).eager_threshold == old(self).eager_threshold,
            final(self).store.issued() == old(self).store.issued(),
            final(self).store.rank_cap() == old(self).store.rank_cap(),
            forall|j: usize| final(self).store.rank(j) == old(self).store.rank(j),
            same_values(old(self).store.nodes(), final(self).store.nodes()),
    {
        let ghost nodes = self.store.nodes();
        let ghost roots = self.roots@;
        proof {
            self.store.lemma_ok();
        }
        self.store.detach(i);
        proof {
            let after = self.store.nodes();
            let p = nodes[i].parent->0;
            lemma_forest_detach(nodes, i);
            lemma_degrees_detach(nodes, i);
            assert(parent_ok(nodes, i, p));
            assert forall|j: usize| #[trigger]
                after.dom().contains(j) && after[j].parent is Some implies le(
                after[after[j].parent->0].value,
                after[j].value,
            ) by {
                assert(nodes.dom().contains(j));
            }
            assert forall|n: int| 0 <= n < roots.len() implies after.dom().contains(
                #[trigger] roots[n],
            ) && after[roots[n]].parent is None && after[roots[n]].value
                == nodes[roots[n]].value by {
                assert(nodes.dom().contains(roots[n]));
            }
            if roots.contains(i) {
                let n = choose|n: int| 0 <= n < roots.len() && roots[n] == i;
                assert(nodes.dom().contains(roots[n]));
            }
            assert forall|j: usize| #[trigger]
                after.dom().contains(j) && after[j].parent is None && j != i implies roots.contains(
                j,
            ) by {
                assert(nodes.dom().contains(j));
            }
            if self.min is Some {
                let m = self.min->0;
                let n = choose|n: int| 0 <= n < roots.len() && roots[n] == m;
                assert(nodes.dom().contains(roots[n]));
            }
        }
        self.add_root(i);
    }

    /// Walks up from the node in slot `p`, which has just lost a child: an
    /// unmarked node with a parent is marked and the walk ends; a marked one
    /// is cut and the walk goes on with its parent; a root ends the walk.
    fn cascading_cut(&mut self, p: usize)
        requires
            obeys_total_order::<T>(),
            old(self).wf_order(),
            degrees_ok(old(self).store.nodes(), Some(p)),
            old(self).store.nodes().dom().contains(p),
        ensures
            final(self).wf(),
            (final(self).store.nodes(), final(self).roots@) == cascaded(
                old(self).store.nodes(),
                old(self).roots@,
                p,
                old(self).store.rank_cap(),
            ),
            final(self).min == old(self).min,
            final(self).eager_threshold == old(self).eager_threshold,
            final(self).store.issued() == old(self).store.issued(),
            same_values(old(self).store.nodes(), final(self).store.nodes()),
    {
        let ghost start = self.store.nodes();
        let ghost start_roots = self.roots@;
        let ghost cap = self.store.rank_cap();
        let ghost mut fuel = cap;
        let mut cur = p;
        proof {
            self.store.lemma_ok();
        }
        loop
            invariant_except_break
                degrees_ok(self.store.nodes(), Some(cur)),
                fuel + self.store.rank(cur) >= self.store.rank_cap(),
                cascaded(start, start_roots, p, cap) == cascaded(
                    self.store.nodes(),
                    self.roots@,
                    cur,
                    fuel,
                ),
            invariant
                obeys_total_order::<T>(),
                self.wf_order(),
                self.store.nodes().dom().contains(cur),
                self.min == old(self).min,
                self.eager_threshold == old(self).eager_threshold,
                self.store.issued() == old(self).store.issued(),
                same_values(start, self.store.nodes()),
            ensures
                degrees_ok(self.store.nodes(), None),
                (self.store.nodes(), self.roots@) == cascaded(start, start_roots, p, cap),
            decreases self.store.rank_cap() - self.store.rank(cur),
        {
            let ghost nodes = self.store.nodes();
            let ghost roots = self.roots@;
            proof {
                self.store.lemma_ok();
            }
            match self.store.parent(cur) {
                None => {
                    proof {
                        lemma_degrees_of_root(nodes, cur);
                    }
                    break ;
                },
                Some(up) => {
                    proof {
                        assert(parent_ok(nodes, cur, up));
                    }
                    if !self.store.is_marked(cur) {
                        self.store.set_marked(cur, true);
                        proof {
                            let after = self.store.nodes();
                            assert forall|j: usize| #[trigger]
                                after.dom().contains(j) && after[j].parent is Some implies le(
                                after[after[j].parent->0].value,
                                after[j].value,
                            ) by {
                                assert(nodes.dom().contains(j));
                            }
                            assert forall|n: int| 0 <= n < roots.len() implies after.dom().contains(
                                #[trigger] roots[n],
                            ) && after[roots[n]].parent is None && after[roots[n]].value
                                == nodes[roots[n]].value by {
                                assert(nodes.dom().contains(roots[n]));
                            }
                            assert forall|j: usize| #[trigger]
                                after.dom().contains(j) && after[j].parent is None implies roots.contains(
                                j,
                            ) by {
                                assert(nodes.dom().contains(j));
                            }
                            lemma_same_values_trans(start, nodes, after);
                            lemma_degrees_mark(nodes, cur);
                        }
                        break ;
                    } else {
                        proof {
                            self.lemma_above_min(cur);
                        }
                        self.cut(cur);
                        proof {
                            lemma_same_values_trans(start, nodes, self.store.nodes());
                            fuel = (fuel - 1) as nat;
                        }
                        cur = up;
                    }
                },
            }
        }
    }

    /// Lowers the value under `handle` to `value`. The node becomes the
    /// minimum if `value` sorts strictly before the minimum so far.
    ///
    /// Fails, and leaves the heap as it is, if `handle` names no node of the
    /// heap or if `value` sorts after the node's value.
    pub fn decrease_key(&mut self, handle: Handle, value: T) -> (r: Result<(), HeapError>)
        requires
            obeys_total_order::<T>(),
            old(self).wf(),
        ensures
            final(self).wf(),
            final(self).issued() == old(self).issued(),
            final(self).threshold() == old(self).threshold(),
            match r {
                Ok(_) => {
                    &&& old(self)@.dom().contains(handle)
                    &&& !lt(old(self)@[handle], value)
                    &&& final(self)@ == old(self)@.insert(handle, value)
                    &&& old(self).min_handle() is Some
                    &&& final(self).min_handle() == Some(
                        if lt(value, old(self)@[old(self).min_handle()->0]) {
                            handle
                        } else {
                            old(self).min_handle()->0
                        },
                    )
                    &&& le(final(self)@[final(self).min_handle()->0], value)
                    &&& (final(self).forest(), final(self).roots()) == lowered(
                        old(self).forest(),
                        old(self).roots(),
                        handle.slot(),
                        value,
                        old(self).depth_bound(),
                    )
                },
                Err(HeapError::InvalidHandle) => {
                    &&& !old(self)@.dom().contains(handle)
                    &&& *final(self) == *old(self)
                },
                Err(HeapError::InvalidOperation) => {
                    &&& old(self)@.dom().contains(handle)
                    &&& lt(old(self)@[handle], value)
                    &&& *final(self) == *old(self)
                },
            },
    {
        let ghost nodes = self.store.nodes();
        let ghost roots = self.roots@;
        let i = match self.store.resolve(handle) {
            Some(i) => i,
            None => {
                return Err(HeapError::InvalidHandle);
            },
        };
        if less(self.store.value(i), &value) {
            return Err(HeapError::InvalidOperation);
        }
        let parent = self.store.parent(i);
        proof {
            self.store.lemma_ok();
            self.lemma_min_is_least();
            self.lemma_above_min(i);
            lemma_values_set(nodes, i, value);
            if parent is Some {
                assert(parent_ok(nodes, i, parent->0));
                self.lemma_above_min(parent->0);
            }
        }
        let m = match self.min {
            Some(m) => m,
            None => i,
        };
        let better = less(&value, self.store.value(m));
        let violates = match parent {
            Some(p) => {
                proof {
                    assert(parent_ok(nodes, i, p));
                }
                less(&value, self.store.value(p))
            },
            None => false,
        };
        self.store.set_value(i, value);
        let ghost set = self.store.nodes();
        proof {
            lemma_degrees_same_links(nodes, set, None);
            lemma_degrees_weaken(set, Some(i));
            assert forall|c: usize| #[trigger]
                set.dom().contains(c) && set[c].parent is Some && (c != i || !violates) implies le(
                set[set[c].parent->0].value,
                set[c].value,
            ) by {
                assert(nodes.dom().contains(c));
                let up = nodes[c].parent->0;
                if up == i {
                    lemma_le_trans(value, nodes[i].value, nodes[c].value);
                }
            }
            assert forall|n: int| 0 <= n < roots.len() implies set.dom().contains(
                #[trigger] roots[n],
            ) && set[roots[n]].parent is None by {
                assert(nodes.dom().contains(roots[n]));
            }
            assert forall|j: usize| #[trigger]
                set.dom().contains(j) && set[j].parent is None implies roots.contains(j) by {
                assert(nodes.dom().contains(j));
            }
        }
        match parent {
            None => {
                if better {
                    self.min = Some(i);
                }
                proof {
                    let now = self.min->0;
                    assert forall|n: int| 0 <= n < roots.len() implies le(
                        set[now].value,
                        set[#[trigger] roots[n]].value,
                    ) by {
                        let r = roots[n];
                        assert(nodes.dom().contains(r));
                        if r == i {
                            if better {
                                lemma_le_refl(value);
                            } else if m == i {
                                lemma_le_refl(value);
                            }
                        } else {
                            if better {
                                lemma_lt_le_trans(value, nodes[m].value, nodes[r].value);
                                lemma_lt_le(value, nodes[r].value);
                            } else if m == i {
                                lemma_le_trans(value, nodes[i].value, nodes[r].value);
                            }
                        }
                    }
                }
            },
            Some(p) => {
                proof {
                    assert forall|n: int| 0 <= n < roots.len() implies set[roots[n]]
                        == nodes[#[trigger] roots[n]] by {
                        assert(nodes.dom().contains(roots[n]));
                    }
                    let at = choose|n: int| 0 <= n < roots.len() && roots[n] == m;
                    assert(nodes.dom().contains(roots[at]));
                    if !lt(value, nodes[p].value) {
                        lemma_le_trans(nodes[m].value, nodes[p].value, value);
                    }
                }
                if violates {
                    self.cut(i);
                    let ghost severed = self.store.nodes();
                    self.cascading_cut(p);
                    proof {
                        lemma_same_values_trans(set, severed, self.store.nodes());
                    }
                }
            },
        }
        proof {
            lemma_values_same(set, self.store.nodes());
            self.lemma_min_is_least();
        }
        Ok(())
    }
}

} // verus!

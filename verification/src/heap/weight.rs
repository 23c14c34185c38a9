//! Why the degrees stay small: a node with `d` children has at least
//! `fib(d + 2)` nodes at or below it.
//!
//! The [law of the degrees](crate::heap::degrees::degrees_ok) gives the
//! `i`-th child of a node at least `i - 1` children. So, if the claim holds
//! of the children, a node with `d` children has below it at least
//! `fib(1) + fib(2) + ... + fib(d)` nodes, which with the node itself
//! come to `fib(d + 2)`.
use crate::heap::degrees::{credit, degrees_ok, slack};
use crate::store::{child_ok, parent_ok, Store};
use vstd::prelude::*;

verus! {

/// The Fibonacci numbers: 0, 1, 1, 2, 3, 5, 8, ...
pub open spec fn fib(n: nat) -> nat
    decreases n,
{
    if n == 0 {
        0
    } else if n == 1 {
        1
    } else {
        fib((n - 1) as nat) + fib((n - 2) as nat)
    }
}

/// The Fibonacci numbers do not fall.
pub proof fn lemma_fib_rises(a: nat, b: nat)
    requires
        a <= b,
    ensures
        fib(a) <= fib(b),
    decreases b,
{
    if a < b {
        if b == 1 {
        } else {
            lemma_fib_rises(a, (b - 1) as nat);
        }
    }
}

/// Whether the node in slot `j` is there and at or below the node in slot
/// `a`, as a number: 1 if it is, 0 if not.
pub open spec fn one_below<T>(store: Store<T>, a: usize, j: usize) -> nat {
    if store.nodes().dom().contains(j) && store.below(a, j) {
        1
    } else {
        0
    }
}

/// The number of nodes in the first `n` slots that are at or below the node
/// in slot `a`.
pub open spec fn count_below<T>(store: Store<T>, a: usize, n: nat) -> nat
    decreases n,
{
    if n == 0 {
        0
    } else {
        count_below(store, a, (n - 1) as nat) + one_below(store, a, (n - 1) as usize)
    }
}

/// The number of nodes at or below the node in slot `a`.
pub open spec fn weight<T>(store: Store<T>, a: usize) -> nat {
    count_below(store, a, store.slot_count())
}

/// There are no more nodes in the first `n` slots than slots.
pub proof fn lemma_count_bound<T>(store: Store<T>, a: usize, n: nat)
    ensures
        count_below(store, a, n) <= n,
    decreases n,
{
    if n > 0 {
        lemma_count_bound(store, a, (n - 1) as nat);
    }
}

/// The slots before slot `n` that hold a node.
pub open spec fn nodes_before<T>(store: Store<T>, n: nat) -> Set<usize> {
    Set::new(|i: usize| i < n && store.nodes().dom().contains(i))
}

/// There are no more nodes at or below a node than nodes.
pub proof fn lemma_count_nodes<T>(store: Store<T>, a: usize, n: nat)
    requires
        n <= usize::MAX + 1,
    ensures
        nodes_before(store, n).finite(),
        count_below(store, a, n) <= nodes_before(store, n).len(),
    decreases n,
{
    if n == 0 {
        assert(nodes_before(store, n) =~= Set::<usize>::empty());
    } else {
        let m = (n - 1) as nat;
        lemma_count_nodes(store, a, m);
        if store.nodes().dom().contains(m as usize) {
            assert(nodes_before(store, n) =~= nodes_before(store, m).insert(m as usize));
        } else {
            assert(nodes_before(store, n) =~= nodes_before(store, m));
        }
    }
}

/// A node is no higher in rank than a node that it is at or below.
proof fn lemma_below_rank<T>(store: Store<T>, a: usize, j: usize)
    requires
        store.ok(),
        store.nodes().dom().contains(j),
        store.below(a, j),
    ensures
        store.rank(j) <= store.rank(a),
    decreases store.rank_cap() - store.rank(j),
{
    store.lemma_ok();
    store.lemma_below(a, j);
    if j != a {
        let p = store.nodes()[j].parent->0;
        assert(parent_ok(store.nodes(), j, p));
        lemma_below_rank(store, a, p);
    }
}

/// What is below a child is below the parent.
proof fn lemma_below_parent<T>(store: Store<T>, c: usize, x: usize, j: usize)
    requires
        store.ok(),
        store.nodes().dom().contains(j),
        store.nodes().dom().contains(c),
        store.nodes()[c].parent == Some(x),
        store.below(c, j),
    ensures
        store.below(x, j),
        j != x,
    decreases store.rank_cap() - store.rank(j),
{
    store.lemma_ok();
    store.lemma_below(c, j);
    store.lemma_below(x, j);
    assert(parent_ok(store.nodes(), c, x));
    if j == c {
        store.lemma_below(x, x);
    } else {
        let p = store.nodes()[j].parent->0;
        assert(parent_ok(store.nodes(), j, p));
        lemma_below_parent(store, c, x, p);
    }
    if j == x {
        lemma_below_rank(store, c, x);
    }
}

/// Of two nodes that a node is at or below, one is at or below the other.
proof fn lemma_below_line<T>(store: Store<T>, a: usize, b: usize, j: usize)
    requires
        store.ok(),
        store.nodes().dom().contains(j),
        store.below(a, j),
        store.below(b, j),
    ensures
        store.below(a, b) || store.below(b, a),
    decreases store.rank_cap() - store.rank(j),
{
    store.lemma_ok();
    store.lemma_below(a, j);
    store.lemma_below(b, j);
    if j != a && j != b {
        let p = store.nodes()[j].parent->0;
        assert(parent_ok(store.nodes(), j, p));
        lemma_below_line(store, a, b, p);
    }
}

/// No node is below two children of one node.
proof fn lemma_one_branch<T>(store: Store<T>, x: usize, i: int, k: int, j: usize)
    requires
        store.ok(),
        store.nodes().dom().contains(x),
        store.nodes().dom().contains(j),
        0 <= i < store.nodes()[x].children.len(),
        0 <= k < store.nodes()[x].children.len(),
        store.below(store.nodes()[x].children[i], j),
        store.below(store.nodes()[x].children[k], j),
    ensures
        i == k,
{
    store.lemma_ok();
    let nodes = store.nodes();
    let a = nodes[x].children[i];
    let b = nodes[x].children[k];
    assert(child_ok(nodes, x, nodes[x].children[i]));
    assert(child_ok(nodes, x, nodes[x].children[k]));
    lemma_below_line(store, a, b, j);
    if a != b {
        if store.below(a, b) {
            store.lemma_below(a, b);
            lemma_below_rank(store, a, x);
        } else {
            store.lemma_below(b, a);
            lemma_below_rank(store, b, x);
        }
    }
}

/// How many of the first `k` children of the node in slot `x` the node in
/// slot `j` is at or below.
pub open spec fn hits<T>(store: Store<T>, x: usize, k: nat, j: usize) -> nat
    decreases k,
{
    if k == 0 {
        0
    } else {
        hits(store, x, (k - 1) as nat, j) + one_below(
            store,
            store.nodes()[x].children[k - 1],
            j,
        )
    }
}

/// A node is below one child of a node at most, and then it is below the
/// node and is not the node.
proof fn lemma_hits<T>(store: Store<T>, x: usize, k: nat, j: usize)
    requires
        store.ok(),
        store.nodes().dom().contains(x),
        k <= store.nodes()[x].children.len(),
    ensures
        hits(store, x, k, j) + (if j == x {
            1nat
        } else {
            0nat
        }) <= one_below(store, x, j),
        hits(store, x, k, j) == 1 ==> exists|i: int|
            0 <= i < k && store.below(#[trigger] store.nodes()[x].children[i], j),
    decreases k,
{
    let nodes = store.nodes();
    store.lemma_ok();
    if k == 0 {
        if j == x {
            store.lemma_below(x, x);
        }
    } else {
        lemma_hits(store, x, (k - 1) as nat, j);
        let c = nodes[x].children[k - 1];
        assert(child_ok(nodes, x, nodes[x].children[k - 1]));
        if one_below(store, c, j) == 1 {
            lemma_below_parent(store, c, x, j);
            if hits(store, x, (k - 1) as nat, j) == 1 {
                let i = choose|i: int|
                    0 <= i < k - 1 && store.below(#[trigger] nodes[x].children[i], j);
                lemma_one_branch(store, x, i, k - 1, j);
            }
            assert(store.below(nodes[x].children[k - 1], j));
        } else if hits(store, x, (k - 1) as nat, j) == 1 {
            let i = choose|i: int|
                0 <= i < k - 1 && store.below(#[trigger] nodes[x].children[i], j);
            assert(0 <= i < k && store.below(nodes[x].children[i], j));
        }
    }
}

/// The nodes in the first `n` slots that are at or below one of the first
/// `k` children of the node in slot `x`, each child's counted by itself.
pub open spec fn count_branches<T>(store: Store<T>, x: usize, k: nat, n: nat) -> nat
    decreases k,
{
    if k == 0 {
        0
    } else {
        count_branches(store, x, (k - 1) as nat, n) + count_below(
            store,
            store.nodes()[x].children[k - 1],
            n,
        )
    }
}

/// One slot more adds to the count of the branches what it holds of them.
proof fn lemma_branches_step<T>(store: Store<T>, x: usize, k: nat, n: nat)
    ensures
        count_branches(store, x, k, n + 1) == count_branches(store, x, k, n) + hits(
            store,
            x,
            k,
            n as usize,
        ),
    decreases k,
{
    if k > 0 {
        lemma_branches_step(store, x, (k - 1) as nat, n);
    }
}

/// A node counts for itself, and what is below its children is below it:
/// in any number of slots.
proof fn lemma_count_branches<T>(store: Store<T>, x: usize, n: nat)
    requires
        store.ok(),
        store.nodes().dom().contains(x),
        n <= usize::MAX + 1,
    ensures
        count_branches(store, x, store.nodes()[x].children.len(), n) + (if x < n {
            1nat
        } else {
            0nat
        }) <= count_below(store, x, n),
    decreases n,
{
    let d = store.nodes()[x].children.len();
    if n == 0 {
        lemma_branches_none(store, x, d);
    } else {
        let m = (n - 1) as nat;
        lemma_count_branches(store, x, m);
        lemma_branches_step(store, x, d, m);
        lemma_hits(store, x, d, m as usize);
    }
}

/// In no slots there is nothing to count.
proof fn lemma_branches_none<T>(store: Store<T>, x: usize, k: nat)
    ensures
        count_branches(store, x, k, 0) == 0,
    decreases k,
{
    if k > 0 {
        lemma_branches_none(store, x, (k - 1) as nat);
    }
}

/// One, and the first `k` Fibonacci numbers from `fib(1)` on.
pub open spec fn fib_sum(k: nat) -> nat
    decreases k,
{
    if k == 0 {
        1
    } else {
        fib_sum((k - 1) as nat) + fib(k)
    }
}

/// One and the first `k` Fibonacci numbers come to the Fibonacci number two
/// further on.
pub proof fn lemma_fib_sum(k: nat)
    ensures
        fib_sum(k) == fib(k + 2),
    decreases k,
{
    if k == 0 {
        assert(fib(0) == 0);
        assert(fib(1) == 1);
        assert(fib(2) == 1);
    } else {
        lemma_fib_sum((k - 1) as nat);
        assert(fib(k + 2) == fib(k + 1) + fib(k));
    }
}

/// A node with `d` children has at least `fib(d + 2)` nodes at or below
/// it, itself among them. And so there are at least that many nodes, and
/// slots.
pub proof fn lemma_weight<T>(store: Store<T>, x: usize)
    requires
        store.ok(),
        degrees_ok(store.nodes(), None),
        store.nodes().dom().contains(x),
    ensures
        fib(store.nodes()[x].children.len() + 2) <= weight(store, x),
        weight(store, x) <= store.slot_count(),
        store.nodes().dom().finite(),
        weight(store, x) <= store.nodes().dom().len(),
    decreases store.rank(x),
{
    store.lemma_slot_count();
    lemma_count_nodes(store, x, store.slot_count());
    assert(nodes_before(store, store.slot_count()) =~= store.nodes().dom()) by {
        store.lemma_ok();
    }
    let nodes = store.nodes();
    let d = nodes[x].children.len();
    store.lemma_ok();
    lemma_count_bound(store, x, store.slot_count());
    lemma_branches_weigh(store, x, d);
    lemma_fib_sum(d);
    lemma_slots_fit(store);
    lemma_count_branches(store, x, store.slot_count());
}

/// The store has no more slots than a `usize` can count.
proof fn lemma_slots_fit<T>(store: Store<T>)
    requires
        store.ok(),
    ensures
        store.slot_count() <= usize::MAX + 1,
{
    store.lemma_slot_count();
}

/// The first `k` children of a node weigh at least the first `k` Fibonacci
/// numbers together.
proof fn lemma_branches_weigh<T>(store: Store<T>, x: usize, k: nat)
    requires
        store.ok(),
        degrees_ok(store.nodes(), None),
        store.nodes().dom().contains(x),
        k <= store.nodes()[x].children.len(),
    ensures
        fib_sum(k) <= count_branches(store, x, k, store.slot_count()) + 1,
    decreases store.rank(x), k,
{
    let nodes = store.nodes();
    store.lemma_ok();
    if k > 0 {
        lemma_branches_weigh(store, x, (k - 1) as nat);
        let c = nodes[x].children[k - 1];
        assert(child_ok(nodes, x, nodes[x].children[k - 1]));
        assert(k - 1 <= credit(nodes[c]) + slack(c, None));
        lemma_weight(store, c);
        lemma_fib_rises(k, nodes[c].children.len() + 2);
    }
}

} // verus!

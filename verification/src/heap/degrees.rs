//! What the marks are for: the law that ties the number of children of a
//! node to its place among its siblings.
//!
//! A root that is hung under another has as many children as that one had
//! before, so it becomes the `i`-th child, counted from 0, with `i`
//! children. From then on it can lose one child, and is marked when it
//! does; when it loses another it is cut and becomes a root. So the `i`-th
//! child of a node always has `i` children, or `i - 1` and a mark.
use crate::store::{
    child_ok, detached, forest_ok, lemma_forest_detach, linked, position, NodeModel,
};
use vstd::prelude::*;

verus! {

/// The number of children of the node, and one more if it is marked.
pub open spec fn credit<T>(node: NodeModel<T>) -> int {
    node.children.len() + if node.marked {
        1int
    } else {
        0int
    }
}

/// One for the node that is excepted, nothing for any other.
pub open spec fn slack(c: usize, except: Option<usize>) -> int {
    if except == Some(c) {
        1
    } else {
        0
    }
}

/// The `i`-th child of every node, counted from 0, has at least `i`
/// children, or `i - 1` and a mark. The node named by `except` has just
/// lost a child and may be one short.
pub open spec fn degrees_ok<T>(nodes: Map<usize, NodeModel<T>>, except: Option<usize>) -> bool {
    forall|p: usize, i: int|
        nodes.dom().contains(p) && 0 <= i < nodes[p].children.len() ==> i <= credit(
            nodes[#[trigger] nodes[p].children[i]],
        ) + slack(nodes[p].children[i], except)
}

/// The law survives a node without links that joins the forest.
pub proof fn lemma_degrees_insert_single<T>(
    nodes: Map<usize, NodeModel<T>>,
    i: usize,
    node: NodeModel<T>,
    except: Option<usize>,
)
    requires
        forest_ok(nodes),
        degrees_ok(nodes, except),
        !nodes.dom().contains(i),
        node.children.len() == 0,
    ensures
        degrees_ok(nodes.insert(i, node), except),
{
    let after = nodes.insert(i, node);
    assert forall|p: usize, k: int|
        after.dom().contains(p) && 0 <= k < after[p].children.len() implies k <= credit(
        after[#[trigger] after[p].children[k]],
    ) + slack(after[p].children[k], except) by {
        assert(child_ok(nodes, p, nodes[p].children[k]));
    }
}

/// The law survives a root without children that leaves the forest.
pub proof fn lemma_degrees_remove_single<T>(
    nodes: Map<usize, NodeModel<T>>,
    i: usize,
    except: Option<usize>,
)
    requires
        forest_ok(nodes),
        degrees_ok(nodes, except),
        nodes.dom().contains(i),
        nodes[i].parent is None,
    ensures
        degrees_ok(nodes.remove(i), except),
{
    let after = nodes.remove(i);
    assert forall|p: usize, k: int|
        after.dom().contains(p) && 0 <= k < after[p].children.len() implies k <= credit(
        after[#[trigger] after[p].children[k]],
    ) + slack(after[p].children[k], except) by {
        assert(child_ok(nodes, p, nodes[p].children[k]));
    }
}

/// The law with no exception is the law with any.
pub proof fn lemma_degrees_weaken<T>(nodes: Map<usize, NodeModel<T>>, except: Option<usize>)
    requires
        degrees_ok(nodes, None),
    ensures
        degrees_ok(nodes, except),
{
}

/// The law speaks of children and marks only: it survives a change that
/// leaves both as they are.
pub proof fn lemma_degrees_same_links<T>(
    before: Map<usize, NodeModel<T>>,
    after: Map<usize, NodeModel<T>>,
    except: Option<usize>,
)
    requires
        degrees_ok(before, except),
        forall|i: usize| before.dom().contains(i) <==> after.dom().contains(i),
        forall|i: usize| #[trigger]
            before.dom().contains(i) ==> after[i].children == before[i].children
                && after[i].marked == before[i].marked,
        forest_ok(before),
    ensures
        degrees_ok(after, except),
{
    assert forall|p: usize, k: int|
        after.dom().contains(p) && 0 <= k < after[p].children.len() implies k <= credit(
        after[#[trigger] after[p].children[k]],
    ) + slack(after[p].children[k], except) by {
        assert(before.dom().contains(p));
        assert(child_ok(before, p, before[p].children[k]));
    }
}

/// The excepted node needs no exception when it is a root, or no node.
pub proof fn lemma_degrees_of_root<T>(nodes: Map<usize, NodeModel<T>>, r: usize)
    requires
        forest_ok(nodes),
        degrees_ok(nodes, Some(r)),
        nodes.dom().contains(r) ==> nodes[r].parent is None,
    ensures
        degrees_ok(nodes, None),
{
    assert forall|p: usize, k: int|
        nodes.dom().contains(p) && 0 <= k < nodes[p].children.len() implies k <= credit(
        nodes[#[trigger] nodes[p].children[k]],
    ) + slack(nodes[p].children[k], None) by {
        assert(child_ok(nodes, p, nodes[p].children[k]));
    }
}

/// The law survives the linking of two roots with equally many children.
pub proof fn lemma_degrees_link<T>(nodes: Map<usize, NodeModel<T>>, child: usize, parent: usize)
    requires
        forest_ok(nodes),
        degrees_ok(nodes, None),
        nodes.dom().contains(child),
        nodes.dom().contains(parent),
        child != parent,
        nodes[child].parent is None,
        nodes[parent].parent is None,
        nodes[child].children.len() == nodes[parent].children.len(),
    ensures
        degrees_ok(linked(nodes, child, parent), None),
{
    let after = linked(nodes, child, parent);
    let d = nodes[parent].children.len();
    assert forall|p: usize, k: int|
        after.dom().contains(p) && 0 <= k < after[p].children.len() implies k <= credit(
        after[#[trigger] after[p].children[k]],
    ) + slack(after[p].children[k], None) by {
        if p == parent && k == d {
        } else {
            assert(child_ok(nodes, p, nodes[p].children[k]));
        }
    }
}

/// When a node is cut from its parent, the law holds but for the parent,
/// which is one child short. The node that is cut may have been one short
/// itself.
pub proof fn lemma_degrees_detach<T>(nodes: Map<usize, NodeModel<T>>, child: usize)
    requires
        forest_ok(nodes),
        degrees_ok(nodes, Some(child)),
        nodes.dom().contains(child),
        nodes[child].parent is Some,
        nodes[child].parent->0 != child,
    ensures
        degrees_ok(detached(nodes, child), nodes[child].parent),
{
    let parent = nodes[child].parent->0;
    let after = detached(nodes, child);
    let kids = nodes[parent].children;
    lemma_forest_detach(nodes, child);
    let at = position(kids, child);
    assert forall|p: usize, k: int|
        after.dom().contains(p) && 0 <= k < after[p].children.len() implies k <= credit(
        after[#[trigger] after[p].children[k]],
    ) + slack(after[p].children[k], Some(parent)) by {
        let n = if p == parent && k >= at {
            k + 1
        } else {
            k
        };
        let y = nodes[p].children[n];
        assert(after[p].children[k] == y);
        assert(child_ok(nodes, p, nodes[p].children[n]));
        assert(n <= credit(nodes[y]) + slack(y, Some(child)));
        if y == child {
            assert(p == parent);
            assert(n == at);
        }
    }
}

/// The law holds again once the node that is one child short is marked.
pub proof fn lemma_degrees_mark<T>(nodes: Map<usize, NodeModel<T>>, p: usize)
    requires
        forest_ok(nodes),
        degrees_ok(nodes, Some(p)),
        nodes.dom().contains(p),
        !nodes[p].marked,
    ensures
        degrees_ok(nodes.insert(p, nodes[p].with_marked(true)), None),
{
    let after = nodes.insert(p, nodes[p].with_marked(true));
    assert forall|q: usize, k: int|
        after.dom().contains(q) && 0 <= k < after[q].children.len() implies k <= credit(
        after[#[trigger] after[q].children[k]],
    ) + slack(after[q].children[k], None) by {
        assert(child_ok(nodes, q, nodes[q].children[k]));
    }
}

} // verus!

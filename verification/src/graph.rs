//! The directed edge list of the target graph and the adjacency derived from it.
use vstd::prelude::*;

verus! {

/// A directed edge `(from, to)` between two nodes.
pub type Edge = (usize, usize);

/// The targets of the edges that leave `node`, in the order of the edge list.
pub open spec fn out_neighbors(edges: Seq<Edge>, node: int) -> Seq<usize>
    decreases edges.len(),
{
    if edges.len() == 0 {
        Seq::empty()
    } else if edges.last().0 == node {
        out_neighbors(edges.drop_last(), node).push(edges.last().1)
    } else {
        out_neighbors(edges.drop_last(), node)
    }
}

/// The sources of the edges that enter `node`, in the order of the edge list.
pub open spec fn in_neighbors(edges: Seq<Edge>, node: int) -> Seq<usize>
    decreases edges.len(),
{
    if edges.len() == 0 {
        Seq::empty()
    } else if edges.last().1 == node {
        in_neighbors(edges.drop_last(), node).push(edges.last().0)
    } else {
        in_neighbors(edges.drop_last(), node)
    }
}

/// Every endpoint of every edge is a node below `node_count`.
pub open spec fn edges_in_range(edges: Seq<Edge>, node_count: int) -> bool {
    forall|e: int| 0 <= e < edges.len() ==> (#[trigger] edges[e]).0 < node_count && edges[e].1 < node_count
}

/// Some edge links `a` and `b`, in one direction or the other.
pub open spec fn linked(edges: Seq<Edge>, a: int, b: int) -> bool {
    exists|e: int| 0 <= e < edges.len() && is_link(#[trigger] edges[e], a, b)
}

/// The edge `e` runs between `a` and `b`, in one direction or the other.
pub open spec fn is_link(e: Edge, a: int, b: int) -> bool {
    (e.0 == a && e.1 == b) || (e.0 == b && e.1 == a)
}

/// Extending the edge list by one edge extends the out-neighbours of its source and of no other node.
pub proof fn lemma_out_neighbors_step(edges: Seq<Edge>, i: int, node: int)
    requires
        0 <= i < edges.len(),
    ensures
        out_neighbors(edges.take(i + 1), node) == if edges[i].0 == node {
            out_neighbors(edges.take(i), node).push(edges[i].1)
        } else {
            out_neighbors(edges.take(i), node)
        },
{
    assert(edges.take(i + 1).drop_last() =~= edges.take(i));
}

/// Extending the edge list by one edge extends the in-neighbours of its target and of no other node.
pub proof fn lemma_in_neighbors_step(edges: Seq<Edge>, i: int, node: int)
    requires
        0 <= i < edges.len(),
    ensures
        in_neighbors(edges.take(i + 1), node) == if edges[i].1 == node {
            in_neighbors(edges.take(i), node).push(edges[i].0)
        } else {
            in_neighbors(edges.take(i), node)
        },
{
    assert(edges.take(i + 1).drop_last() =~= edges.take(i));
}

/// The out-neighbours of a node are nodes, and each of them is linked to it.
pub proof fn lemma_out_neighbors_members(edges: Seq<Edge>, node_count: int, node: int)
    requires
        edges_in_range(edges, node_count),
    ensures
        out_neighbors(edges, node).len() <= edges.len(),
        forall|j: int| 0 <= j < out_neighbors(edges, node).len() ==> {
            &&& (#[trigger] out_neighbors(edges, node)[j]) < node_count
            &&& linked(edges, node, out_neighbors(edges, node)[j] as int)
        },
    decreases edges.len(),
{
    if edges.len() > 0 {
        let rest = edges.drop_last();
        lemma_out_neighbors_members(rest, node_count, node);
        assert forall|j: int| 0 <= j < out_neighbors(edges, node).len() implies {
            &&& (#[trigger] out_neighbors(edges, node)[j]) < node_count
            &&& linked(edges, node, out_neighbors(edges, node)[j] as int)
        } by {
            let w = out_neighbors(edges, node)[j];
            if j < out_neighbors(rest, node).len() {
                assert(w == out_neighbors(rest, node)[j]);
                let e = choose|e: int| 0 <= e < rest.len() && is_link(#[trigger] rest[e], node, w as int);
                assert(is_link(edges[e], node, w as int));
            } else {
                assert(is_link(edges[edges.len() - 1], node, w as int));
            }
        }
    }
}

/// The in-neighbours of a node are nodes, and each of them is linked to it.
pub proof fn lemma_in_neighbors_members(edges: Seq<Edge>, node_count: int, node: int)
    requires
        edges_in_range(edges, node_count),
    ensures
        in_neighbors(edges, node).len() <= edges.len(),
        forall|j: int| 0 <= j < in_neighbors(edges, node).len() ==> {
            &&& (#[trigger] in_neighbors(edges, node)[j]) < node_count
            &&& linked(edges, node, in_neighbors(edges, node)[j] as int)
        },
    decreases edges.len(),
{
    if edges.len() > 0 {
        let rest = edges.drop_last();
        lemma_in_neighbors_members(rest, node_count, node);
        assert forall|j: int| 0 <= j < in_neighbors(edges, node).len() implies {
            &&& (#[trigger] in_neighbors(edges, node)[j]) < node_count
            &&& linked(edges, node, in_neighbors(edges, node)[j] as int)
        } by {
            let w = in_neighbors(edges, node)[j];
            if j < in_neighbors(rest, node).len() {
                assert(w == in_neighbors(rest, node)[j]);
                let e = choose|e: int| 0 <= e < rest.len() && is_link(#[trigger] rest[e], node, w as int);
                assert(is_link(edges[e], node, w as int));
            } else {
                assert(is_link(edges[edges.len() - 1], node, w as int));
            }
        }
    }
}

/// Whatever is linked to a node stands among its out-neighbours or its in-neighbours.
pub proof fn lemma_linked_is_neighbor(edges: Seq<Edge>, node: int, other: int)
    requires
        linked(edges, node, other),
    ensures
        (exists|j: int| 0 <= j < out_neighbors(edges, node).len() && #[trigger] out_neighbors(edges, node)[j] == other)
            || (exists|j: int| 0 <= j < in_neighbors(edges, node).len() && #[trigger] in_neighbors(edges, node)[j] == other),
    decreases edges.len(),
{
    let e = choose|e: int| 0 <= e < edges.len() && is_link(#[trigger] edges[e], node, other);
    let rest = edges.drop_last();
    if e < edges.len() - 1 {
        assert(is_link(rest[e], node, other));
        lemma_linked_is_neighbor(rest, node, other);
        if exists|j: int| 0 <= j < out_neighbors(rest, node).len() && #[trigger] out_neighbors(rest, node)[j] == other {
            let j = choose|j: int| 0 <= j < out_neighbors(rest, node).len() && #[trigger] out_neighbors(rest, node)[j] == other;
            assert(out_neighbors(edges, node)[j] == other);
        } else {
            let j = choose|j: int| 0 <= j < in_neighbors(rest, node).len() && #[trigger] in_neighbors(rest, node)[j] == other;
            assert(in_neighbors(edges, node)[j] == other);
        }
    } else {
        if edges.last().0 == node && edges.last().1 == other {
            let j = out_neighbors(rest, node).len() as int;
            assert(out_neighbors(edges, node)[j] == other);
        } else {
            let j = in_neighbors(rest, node).len() as int;
            assert(in_neighbors(edges, node)[j] == other);
        }
    }
}

} // verus!

//! The objective: the interaction energy of an assignment, summed over the
//! edges, and the change of that sum when the types of one or two nodes change.
use vstd::prelude::*;
use crate::graph::{edges_in_range, in_neighbors, out_neighbors, Edge};
use crate::problem::Problem;

verus! {

/// A partial assignment: for each node the atom type placed on it, if any.
pub type Slots = Seq<Option<usize>>;

/// Every placed type is an atom type of the problem, and there is one slot per node.
pub open spec fn slots_fit(p: Problem, slots: Slots) -> bool {
    &&& slots.len() == p.node_count
    &&& forall|i: int| 0 <= i < slots.len() ==> slot_fits(p, #[trigger] slots[i])
}

/// The slot is empty or holds an atom type of the problem.
pub open spec fn slot_fits(p: Problem, slot: Option<usize>) -> bool {
    slot matches Some(t) ==> t < p.quota.len()
}

/// The energy between a source slot and a target slot: nothing unless both are placed.
pub open spec fn pair_energy(p: Problem, from: Option<usize>, to: Option<usize>) -> int {
    match (from, to) {
        (Some(a), Some(b)) => p.energy[a as int][b as int] as int,
        _ => 0,
    }
}

/// The energy that the edge `e` contributes under `slots`.
pub open spec fn edge_energy(p: Problem, slots: Slots, e: Edge) -> int {
    pair_energy(p, slots[e.0 as int], slots[e.1 as int])
}

/// The energy of `slots` summed over `edges`.
pub open spec fn energy_over(p: Problem, slots: Slots, edges: Seq<Edge>) -> int
    decreases edges.len(),
{
    if edges.len() == 0 {
        0
    } else {
        energy_over(p, slots, edges.drop_last()) + edge_energy(p, slots, edges.last())
    }
}

/// The energy of a partial assignment: the sum over the edges whose two ends are placed.
pub open spec fn placed_energy(p: Problem, slots: Slots) -> int {
    energy_over(p, slots, p.edges)
}

/// The energy of a complete assignment summed over `edges`:
/// `energy[types[a]][types[b]]` for each edge `(a, b)`.
pub open spec fn total_energy_over(p: Problem, types: Seq<usize>, edges: Seq<Edge>) -> int
    decreases edges.len(),
{
    if edges.len() == 0 {
        0
    } else {
        total_energy_over(p, types, edges.drop_last())
            + p.energy[types[edges.last().0 as int] as int][types[edges.last().1 as int] as int]
    }
}

/// The total energy of a complete assignment.
pub open spec fn total_energy(p: Problem, types: Seq<usize>) -> int {
    total_energy_over(p, types, p.edges)
}

/// The complete assignment `types` as slots, every node placed.
pub open spec fn as_slots(types: Seq<usize>) -> Slots {
    Seq::new(types.len(), |i: int| Some(types[i]))
}

/// The two partial assignments agree on every node but `u` and `v`.
pub open spec fn agree_except(s: Slots, s2: Slots, u: int, v: int) -> bool {
    &&& s.len() == s2.len()
    &&& forall|i: int| 0 <= i < s.len() && i != u && i != v ==> s[i] == s2[i]
}

/// The change from `s` to `s2` of the energy on edges from `node` to each of `targets`.
pub open spec fn out_diff(p: Problem, s: Slots, s2: Slots, node: int, targets: Seq<usize>) -> int
    decreases targets.len(),
{
    if targets.len() == 0 {
        0
    } else {
        out_diff(p, s, s2, node, targets.drop_last()) + out_term(p, s, s2, node, targets.last() as int)
    }
}

/// The change from `s` to `s2` of the energy of one edge from `node` to `target`.
pub open spec fn out_term(p: Problem, s: Slots, s2: Slots, node: int, target: int) -> int {
    pair_energy(p, s2[node], s2[target]) - pair_energy(p, s[node], s[target])
}

/// The change from `s` to `s2` of the energy on edges to `node` from each of `sources`,
/// leaving out the edges that come from `u` or `v`.
pub open spec fn in_diff(p: Problem, s: Slots, s2: Slots, node: int, sources: Seq<usize>, u: int, v: int) -> int
    decreases sources.len(),
{
    if sources.len() == 0 {
        0
    } else {
        in_diff(p, s, s2, node, sources.drop_last(), u, v) + in_term(p, s, s2, node, sources.last() as int, u, v)
    }
}

/// The change from `s` to `s2` of the energy of one edge from `source` to `node`,
/// counted as nothing when the edge comes from `u` or `v`.
pub open spec fn in_term(p: Problem, s: Slots, s2: Slots, node: int, source: int, u: int, v: int) -> int {
    if source == u || source == v {
        0
    } else {
        pair_energy(p, s2[source], s2[node]) - pair_energy(p, s[source], s[node])
    }
}

/// The change from `s` to `s2` of the energy on the edges that touch `u` or `v`,
/// each such edge counted once: the edges that leave `u` or `v`, and the edges
/// that enter `u` or `v` from any other node.
pub open spec fn local_diff(p: Problem, s: Slots, s2: Slots, u: int, v: int, edges: Seq<Edge>) -> int {
    out_diff(p, s, s2, u, out_neighbors(edges, u)) + in_diff(p, s, s2, u, in_neighbors(edges, u), u, v) + if u == v {
        0
    } else {
        out_diff(p, s, s2, v, out_neighbors(edges, v)) + in_diff(p, s, s2, v, in_neighbors(edges, v), u, v)
    }
}

proof fn lemma_out_diff_push(p: Problem, s: Slots, s2: Slots, node: int, targets: Seq<usize>, t: usize)
    ensures
        out_diff(p, s, s2, node, targets.push(t)) == out_diff(p, s, s2, node, targets) + out_term(
            p,
            s,
            s2,
            node,
            t as int,
        ),
{
    assert(targets.push(t).drop_last() =~= targets);
}

proof fn lemma_in_diff_push(p: Problem, s: Slots, s2: Slots, node: int, sources: Seq<usize>, t: usize, u: int, v: int)
    ensures
        in_diff(p, s, s2, node, sources.push(t), u, v) == in_diff(p, s, s2, node, sources, u, v) + in_term(
            p,
            s,
            s2,
            node,
            t as int,
            u,
            v,
        ),
{
    assert(sources.push(t).drop_last() =~= sources);
}

/// When two partial assignments differ at `u` and `v` only, their energies
/// differ by the change on the edges that touch `u` or `v`.
pub proof fn lemma_local_diff(p: Problem, s: Slots, s2: Slots, u: int, v: int, edges: Seq<Edge>)
    requires
        agree_except(s, s2, u, v),
        edges_in_range(edges, s.len() as int),
    ensures
        energy_over(p, s2, edges) - energy_over(p, s, edges) == local_diff(p, s, s2, u, v, edges),
    decreases edges.len(),
{
    if edges.len() > 0 {
        let rest = edges.drop_last();
        let a = edges.last().0;
        let b = edges.last().1;
        assert(edges[edges.len() - 1] == edges.last());
        lemma_local_diff(p, s, s2, u, v, rest);
        lemma_out_diff_push(p, s, s2, u, out_neighbors(rest, u), b);
        lemma_out_diff_push(p, s, s2, v, out_neighbors(rest, v), b);
        lemma_in_diff_push(p, s, s2, u, in_neighbors(rest, u), a, u, v);
        lemma_in_diff_push(p, s, s2, v, in_neighbors(rest, v), a, u, v);
    }
}

/// The energy summed over a prefix of the edges grows by the energy of the next edge.
pub proof fn lemma_energy_over_step(p: Problem, slots: Slots, edges: Seq<Edge>, i: int)
    requires
        0 <= i < edges.len(),
    ensures
        energy_over(p, slots, edges.take(i + 1)) == energy_over(p, slots, edges.take(i)) + edge_energy(
            p,
            slots,
            edges[i],
        ),
{
    assert(edges.take(i + 1).drop_last() =~= edges.take(i));
}

/// No edge contributes more than the largest magnitude of an energy, so the
/// energy over `edges` is bounded by their number.
pub proof fn lemma_energy_over_bound(p: Problem, slots: Slots, edges: Seq<Edge>)
    ensures
        -0x8000_0000 * edges.len() <= energy_over(p, slots, edges) <= 0x8000_0000 * edges.len(),
    decreases edges.len(),
{
    if edges.len() > 0 {
        lemma_energy_over_bound(p, slots, edges.drop_last());
    }
}

/// On a complete assignment the energy over the placed edges is the total energy.
pub proof fn lemma_complete_energy(p: Problem, types: Seq<usize>, edges: Seq<Edge>)
    requires
        edges_in_range(edges, types.len() as int),
    ensures
        energy_over(p, as_slots(types), edges) == total_energy_over(p, types, edges),
    decreases edges.len(),
{
    if edges.len() > 0 {
        assert(edges[edges.len() - 1] == edges.last());
        lemma_complete_energy(p, types, edges.drop_last());
    }
}

/// Without nodes there are no edges, and the total energy is zero.
pub proof fn lemma_energy_of_none(p: Problem, types: Seq<usize>)
    requires
        p.valid(),
        p.node_count == 0,
    ensures
        total_energy(p, types) == 0,
{
    if p.edges.len() > 0 {
        assert(p.edges[0].0 < p.node_count);
    }
}

/// With no node placed no edge contributes.
pub proof fn lemma_energy_of_empty(p: Problem, slots: Slots, edges: Seq<Edge>)
    requires
        forall|i: int| 0 <= i < slots.len() ==> (#[trigger] slots[i]) is None,
        edges_in_range(edges, slots.len() as int),
    ensures
        energy_over(p, slots, edges) == 0,
    decreases edges.len(),
{
    if edges.len() > 0 {
        assert(edges[edges.len() - 1] == edges.last());
        lemma_energy_of_empty(p, slots, edges.drop_last());
    }
}

} // verus!

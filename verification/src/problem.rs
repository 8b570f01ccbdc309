//! The problem model: node count, quota per atom type, energy matrix and edge
//! list, validated once when an instance is built and immutable afterwards.
use vstd::prelude::*;
use crate::text::nested_view;
use crate::graph::{edges_in_range, in_neighbors, lemma_in_neighbors_step, lemma_out_neighbors_step, out_neighbors, Edge};

verus! {

/// The sum of the entries of `quota`.
pub open spec fn quota_sum(quota: Seq<u32>) -> nat
    decreases quota.len(),
{
    if quota.len() == 0 {
        0
    } else {
        quota_sum(quota.drop_last()) + quota.last() as nat
    }
}

/// The mathematical content of a problem instance.
pub struct Problem {
    /// The number of nodes of the graph.
    pub node_count: nat,
    /// For each atom type, the number of nodes that must receive it.
    pub quota: Seq<u32>,
    /// `energy[i][j]` is the energy of an edge from a node of type `i` to a node of type `j`.
    pub energy: Seq<Seq<i32>>,
    /// The directed edges of the graph.
    pub edges: Seq<Edge>,
}

impl Problem {
    /// The number of atom types.
    pub open spec fn atom_count(self) -> nat {
        self.quota.len()
    }

    /// The energy matrix has one row per atom type and one column per atom type.
    pub open spec fn energy_is_square(self) -> bool {
        &&& self.energy.len() == self.quota.len()
        &&& forall|i: int| 0 <= i < self.energy.len() ==> (#[trigger] self.energy[i]).len() == self.quota.len()
    }

    /// The instance is valid: the quotas sum to the node count, the energy matrix
    /// is square over the atom types, and every edge joins two nodes of the graph.
    pub open spec fn valid(self) -> bool {
        &&& quota_sum(self.quota) == self.node_count
        &&& self.energy_is_square()
        &&& edges_in_range(self.edges, self.node_count as int)
    }
}

/// Why a problem description was refused.
#[derive(Debug, Clone, Copy, PartialEq, Eq, Structural)]
pub enum InvalidInstance {
    /// The quotas do not sum to the node count.
    QuotaMismatch { node_count: usize, quota_total: u128 },
    /// The energy matrix does not have one row per atom type.
    EnergyRowCount { atom_count: usize, rows: usize },
    /// A row of the energy matrix does not have one entry per atom type.
    EnergyRowLength { row: usize, atom_count: usize, length: usize },
    /// An edge names a node that the graph does not have.
    EdgeOutOfRange { edge: usize, node: usize, node_count: usize },
}

/// The rows of `energy` before `row` all have `atom_count` entries.
pub open spec fn rows_fit(energy: Seq<Seq<i32>>, atom_count: int, row: int) -> bool {
    forall|i: int| 0 <= i < row ==> (#[trigger] energy[i]).len() == atom_count
}

/// What `ProblemInstance::new` owes for a description that it refuses with `err`.
pub open spec fn refusal(
    node_count: usize,
    quota: Seq<u32>,
    energy: Seq<Seq<i32>>,
    edges: Seq<Edge>,
    err: InvalidInstance,
) -> bool {
    match err {
        InvalidInstance::QuotaMismatch { node_count: n, quota_total } => {
            &&& n == node_count
            &&& quota_total == quota_sum(quota)
            &&& quota_total != node_count
        },
        InvalidInstance::EnergyRowCount { atom_count, rows } => {
            &&& quota_sum(quota) == node_count
            &&& atom_count == quota.len()
            &&& rows == energy.len()
            &&& rows != atom_count
        },
        InvalidInstance::EnergyRowLength { row, atom_count, length } => {
            &&& quota_sum(quota) == node_count
            &&& atom_count == quota.len()
            &&& energy.len() == atom_count
            &&& row < atom_count
            &&& rows_fit(energy, atom_count as int, row as int)
            &&& length == energy[row as int].len()
            &&& length != atom_count
        },
        InvalidInstance::EdgeOutOfRange { edge, node, node_count: n } => {
            &&& quota_sum(quota) == node_count
            &&& energy.len() == quota.len()
            &&& rows_fit(energy, quota.len() as int, quota.len() as int)
            &&& n == node_count
            &&& edge < edges.len()
            &&& edges_in_range(edges.take(edge as int), node_count as int)
            &&& node >= node_count
            &&& node == if edges[edge as int].0 >= node_count {
                edges[edge as int].0
            } else {
                edges[edge as int].1
            }
        },
    }
}

/// A validated problem instance together with the adjacency derived from its edges.
#[derive(Debug)]
pub struct ProblemInstance {
    node_count: usize,
    atom_quota: Vec<u32>,
    energy: Vec<Vec<i32>>,
    edges: Vec<Edge>,
    successors: Vec<Vec<usize>>,
    predecessors: Vec<Vec<usize>>,
}

impl View for ProblemInstance {
    type V = Problem;

    closed spec fn view(&self) -> Problem {
        Problem {
            node_count: self.node_count as nat,
            quota: self.atom_quota@,
            energy: nested_view(self.energy@),
            edges: self.edges@,
        }
    }
}

impl ProblemInstance {
    /// The adjacency lists agree with the edge list.
    pub closed spec fn adjacency_derived(&self) -> bool {
        &&& self.successors.len() == self.node_count
        &&& self.predecessors.len() == self.node_count
        &&& forall|u: int| 0 <= u < self.node_count ==> (#[trigger] self.successors[u])@ == out_neighbors(self.edges@, u)
        &&& forall|u: int| 0 <= u < self.node_count ==> (#[trigger] self.predecessors[u])@ == in_neighbors(self.edges@, u)
    }

    /// The instance is valid and its derived adjacency agrees with its edges.
    pub open spec fn wf(&self) -> bool {
        &&& self@.valid()
        &&& self@.node_count <= usize::MAX
        &&& self@.quota.len() <= usize::MAX
        &&& self@.edges.len() <= usize::MAX
        &&& self.adjacency_derived()
    }

    /// Validates a problem description and derives the adjacency from its edges.
    ///
    /// The checks run in a fixed order: the quotas, then the shape of the energy
    /// matrix row by row, then the edges one by one. The first failure is reported.
    pub fn new(node_count: usize, atom_quota: Vec<u32>, energy: Vec<Vec<i32>>, edges: Vec<Edge>) -> (r: Result<
        ProblemInstance,
        InvalidInstance,
    >)
        ensures
            match r {
                Ok(inst) => {
                    &&& inst.wf()
                    &&& inst@.node_count == node_count
                    &&& inst@.quota == atom_quota@
                    &&& inst@.energy == nested_view(energy@)
                    &&& inst@.edges == edges@
                },
                Err(err) => refusal(node_count, atom_quota@, nested_view(energy@), edges@, err),
            },
            r is Ok <==> (Problem {
                node_count: node_count as nat,
                quota: atom_quota@,
                energy: nested_view(energy@),
                edges: edges@,
            }).valid(),
    {
        let atom_count: usize = atom_quota.len();
        let mut total: u128 = 0;
        let mut i: usize = 0;
        while i < atom_count
            invariant
                atom_count == atom_quota.len(),
                i <= atom_count,
                total == quota_sum(atom_quota@.take(i as int)),
                total <= i * 0xffff_ffff,
            decreases atom_count - i,
        {
            assert(atom_quota@.take(i + 1).drop_last() =~= atom_quota@.take(i as int));
            total = total + atom_quota[i] as u128;
            i = i + 1;
        }
        assert(atom_quota@.take(atom_count as int) =~= atom_quota@);
        if total != node_count as u128 {
            return Err(InvalidInstance::QuotaMismatch { node_count, quota_total: total });
        }
        if energy.len() != atom_count {
            return Err(InvalidInstance::EnergyRowCount { atom_count, rows: energy.len() });
        }
        let mut row: usize = 0;
        while row < atom_count
            invariant
                atom_count == atom_quota.len(),
                energy.len() == atom_count,
                row <= atom_count,
                quota_sum(atom_quota@) == node_count,
                rows_fit(nested_view(energy@), atom_count as int, row as int),
            decreases atom_count - row,
        {
            assert(nested_view(energy@)[row as int] == energy[row as int]@);
            if energy[row].len() != atom_count {
                return Err(
                    InvalidInstance::EnergyRowLength { row, atom_count, length: energy[row].len() },
                );
            }
            row = row + 1;
        }
        let edge_count: usize = edges.len();
        let mut successors: Vec<Vec<usize>> = Vec::new();
        let mut predecessors: Vec<Vec<usize>> = Vec::new();
        let mut u: usize = 0;
        while u < node_count
            invariant
                u <= node_count,
                successors.len() == u,
                predecessors.len() == u,
                forall|w: int| 0 <= w < u ==> (#[trigger] successors[w])@ == Seq::<usize>::empty(),
                forall|w: int| 0 <= w < u ==> (#[trigger] predecessors[w])@ == Seq::<usize>::empty(),
            decreases node_count - u,
        {
            successors.push(Vec::new());
            predecessors.push(Vec::new());
            u = u + 1;
        }
        let mut e: usize = 0;
        while e < edge_count
            invariant
                edge_count == edges.len(),
                e <= edge_count,
                atom_count == atom_quota.len(),
                energy.len() == atom_count,
                quota_sum(atom_quota@) == node_count,
                rows_fit(nested_view(energy@), atom_count as int, atom_count as int),
                successors.len() == node_count,
                predecessors.len() == node_count,
                edges_in_range(edges@.take(e as int), node_count as int),
                forall|w: int| 0 <= w < node_count ==> (#[trigger] successors[w])@ == out_neighbors(edges@.take(e as int), w),
                forall|w: int| 0 <= w < node_count ==> (#[trigger] predecessors[w])@ == in_neighbors(edges@.take(e as int), w),
            decreases edge_count - e,
        {
            let (from, to) = edges[e];
            if from >= node_count {
                return Err(InvalidInstance::EdgeOutOfRange { edge: e, node: from, node_count });
            }
            if to >= node_count {
                return Err(InvalidInstance::EdgeOutOfRange { edge: e, node: to, node_count });
            }
            successors[from].push(to);
            predecessors[to].push(from);
            proof {
                assert forall|w: int| 0 <= w < node_count implies (#[trigger] successors[w])@ == out_neighbors(
                    edges@.take(e + 1),
                    w,
                ) by {
                    lemma_out_neighbors_step(edges@, e as int, w);
                }
                assert forall|w: int| 0 <= w < node_count implies (#[trigger] predecessors[w])@ == in_neighbors(
                    edges@.take(e + 1),
                    w,
                ) by {
                    lemma_in_neighbors_step(edges@, e as int, w);
                }
            }
            e = e + 1;
        }
        assert(edges@.take(edge_count as int) =~= edges@);
        Ok(ProblemInstance { node_count, atom_quota, energy, edges, successors, predecessors })
    }

    /// The number of nodes.
    pub fn node_count(&self) -> (n: usize)
        ensures
            n == self@.node_count,
    {
        self.node_count
    }

    /// The number of atom types.
    pub fn atom_count(&self) -> (k: usize)
        ensures
            k == self@.quota.len(),
    {
        self.atom_quota.len()
    }

    /// The quota of each atom type.
    pub fn atom_quota(&self) -> (q: &Vec<u32>)
        ensures
            q@ == self@.quota,
    {
        &self.atom_quota
    }

    /// The number of edges.
    pub fn edge_count(&self) -> (m: usize)
        ensures
            m == self@.edges.len(),
    {
        self.edges.len()
    }

    /// The edge at position `index` of the edge list.
    pub fn edge(&self, index: usize) -> (e: Edge)
        requires
            index < self@.edges.len(),
        ensures
            e == self@.edges[index as int],
    {
        self.edges[index]
    }

    /// The energy of an edge from a node of type `from` to a node of type `to`.
    pub fn energy(&self, from: usize, to: usize) -> (e: i32)
        requires
            self.wf(),
            from < self@.quota.len(),
            to < self@.quota.len(),
        ensures
            e == self@.energy[from as int][to as int],
    {
        assert(self@.energy[from as int] == self.energy[from as int]@);
        self.energy[from][to]
    }

    /// The nodes that `node` has an edge to, one entry per edge, in the order of the edge list.
    pub fn neighbors(&self, node: usize) -> (r: &Vec<usize>)
        requires
            self.wf(),
            node < self@.node_count,
        ensures
            r@ == out_neighbors(self@.edges, node as int),
    {
        &self.successors[node]
    }

    /// The nodes that have an edge to `node`, one entry per edge, in the order of the edge list.
    pub fn predecessors(&self, node: usize) -> (r: &Vec<usize>)
        requires
            self.wf(),
            node < self@.node_count,
        ensures
            r@ == in_neighbors(self@.edges, node as int),
    {
        &self.predecessors[node]
    }
}

} // verus!

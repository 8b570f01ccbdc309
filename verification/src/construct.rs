//! The constructive heuristic: one greedy pass over the nodes in an order
//! driven by connectivity, then a pass that places whatever was deferred.
use vstd::prelude::*;
use crate::assignment::{Assignment, AssignmentView};
use crate::choice::{best_type, cheapest_type, type_free};
use crate::counting::{lemma_placed_bound, lemma_quota_sum_positive};
use crate::energy::Slots;
use crate::graph::{lemma_in_neighbors_members, lemma_linked_is_neighbor, lemma_out_neighbors_members, linked};
use crate::problem::{Problem, ProblemInstance};

verus! {

/// The state of the greedy pass: what is placed, and which nodes were deferred.
pub struct BuildView {
    /// The partial assignment.
    pub asg: AssignmentView,
    /// For each node, whether the pass visited it and left it for later.
    pub deferred: Seq<bool>,
}

/// The node `u` has not been visited: it is neither placed nor deferred.
pub open spec fn waiting(s: BuildView, u: int) -> bool {
    0 <= u < s.asg.slots.len() && s.asg.slots[u] is None && !s.deferred[u]
}

/// The node `u` has a placed neighbour: an edge, in either direction, links it to a placed node.
pub open spec fn touched(p: Problem, slots: Slots, u: int) -> bool {
    exists|x: int| 0 <= x < slots.len() && slots[x] is Some && #[trigger] linked(p.edges, x, u)
}

/// The node `u` has not been visited and has a placed neighbour.
pub open spec fn ready(p: Problem, s: BuildView, u: int) -> bool {
    waiting(s, u) && touched(p, s.asg.slots, u)
}

/// The node `u` is the one to visit next: the lowest unvisited node with a
/// placed neighbour, or, when no unvisited node has one, the lowest unvisited node.
pub open spec fn is_next(p: Problem, s: BuildView, u: int) -> bool {
    if exists|w: int| ready(p, s, w) {
        ready(p, s, u) && forall|w: int| 0 <= w < u ==> !ready(p, s, w)
    } else {
        waiting(s, u) && forall|w: int| 0 <= w < u ==> !waiting(s, w)
    }
}

/// The node to visit next, or `None` when every node has been visited.
pub open spec fn next_node(p: Problem, s: BuildView) -> Option<usize> {
    if exists|u: usize| is_next(p, s, u as int) {
        Some(choose|u: usize| is_next(p, s, u as int))
    } else {
        None
    }
}

/// The state after the visit of `u`: the best type is placed on it unless that
/// would raise the energy, in which case the node is deferred.
pub open spec fn visit(p: Problem, s: BuildView, u: int) -> BuildView {
    match best_type(s.asg, p, u) {
        Some(ty) => if s.asg.marginal(p, u, ty) <= 0 {
            BuildView { asg: s.asg.place(p, u, ty), deferred: s.deferred }
        } else {
            BuildView { asg: s.asg, deferred: s.deferred.update(u, true) }
        },
        None => BuildView { asg: s.asg, deferred: s.deferred.update(u, true) },
    }
}

/// One step of the greedy pass: the visit of the next node, if there is one.
pub open spec fn build_step(p: Problem, s: BuildView) -> BuildView {
    match next_node(p, s) {
        Some(u) => visit(p, s, u as int),
        None => s,
    }
}

/// The state of the greedy pass after `steps` steps, starting with nothing placed.
pub open spec fn greedy_pass(p: Problem, steps: nat) -> BuildView
    decreases steps,
{
    if steps == 0 {
        BuildView { asg: AssignmentView::empty(p), deferred: Seq::new(p.node_count, |i: int| false) }
    } else {
        build_step(p, greedy_pass(p, (steps - 1) as nat))
    }
}

/// The assignment after the node `u`, if it was still free, received its best type.
pub open spec fn force(p: Problem, a: AssignmentView, u: int) -> AssignmentView {
    if a.slots[u] is None {
        match best_type(a, p, u) {
            Some(ty) => a.place(p, u, ty),
            None => a,
        }
    } else {
        a
    }
}

/// The assignment after the nodes below `upto` that were still free received,
/// in ascending order, their best types.
pub open spec fn final_pass(p: Problem, a: AssignmentView, upto: nat) -> AssignmentView
    decreases upto,
{
    if upto == 0 {
        a
    } else {
        force(p, final_pass(p, a, (upto - 1) as nat), upto - 1)
    }
}

/// The assignment that the constructive heuristic builds for `p`: one greedy
/// step per node, then the pass that places what was deferred.
pub open spec fn constructed(p: Problem) -> AssignmentView {
    final_pass(p, greedy_pass(p, p.node_count).asg, p.node_count)
}

/// There is at most one node to visit next.
pub proof fn lemma_next_unique(p: Problem, s: BuildView, u: int, w: int)
    requires
        is_next(p, s, u),
        is_next(p, s, w),
    ensures
        u == w,
{
}

/// Placing a type on `u` makes the nodes linked to `u` touched and changes no other node.
proof fn lemma_touched_after_place(p: Problem, slots: Slots, u: int, ty: usize, w: int)
    requires
        0 <= u < slots.len(),
    ensures
        touched(p, slots.update(u, Some(ty)), w) <==> (touched(p, slots, w) || linked(p.edges, u, w)),
{
    let after = slots.update(u, Some(ty));
    if touched(p, slots, w) {
        let x = choose|x: int| 0 <= x < slots.len() && slots[x] is Some && #[trigger] linked(p.edges, x, w);
        assert(after[x] is Some && linked(p.edges, x, w));
    }
    if linked(p.edges, u, w) {
        assert(after[u] is Some && linked(p.edges, u, w));
    }
    if touched(p, after, w) {
        let x = choose|x: int| 0 <= x < after.len() && after[x] is Some && #[trigger] linked(p.edges, x, w);
        if x != u {
            assert(slots[x] is Some && linked(p.edges, x, w));
        }
    }
}

/// A consistent assignment with a free node has a type with free quota.
pub proof fn lemma_free_node_has_type(a: AssignmentView, p: Problem, u: int) -> (ty: usize)
    requires
        a.wf(p),
        p.quota.len() <= usize::MAX,
        0 <= u < p.node_count,
        a.slots[u] is None,
    ensures
        type_free(a, ty),
{
    lemma_placed_bound(a.slots);
    let i = lemma_quota_sum_positive(a.remaining);
    i as usize
}

/// Why the heuristic gave up: the node that no type with free quota was left for.
#[derive(Debug, Clone, Copy, PartialEq, Eq, Structural)]
pub struct InfeasibleInstance {
    /// The node that could not be covered.
    pub node: usize,
}

/// Marks every node that an edge links to `u`.
fn mark_neighbors(inst: &ProblemInstance, flags: &mut Vec<bool>, u: usize)
    requires
        inst.wf(),
        u < inst@.node_count,
        old(flags).len() == inst@.node_count,
    ensures
        final(flags).len() == inst@.node_count,
        forall|w: int| 0 <= w < inst@.node_count ==> (#[trigger] final(flags)[w]) == (old(flags)[w] || linked(inst@.edges, u as int, w)),
{
    let ghost before = flags@;
    let n: usize = inst.node_count();
    let targets = inst.neighbors(u);
    let sources = inst.predecessors(u);
    proof {
        lemma_out_neighbors_members(inst@.edges, n as int, u as int);
        lemma_in_neighbors_members(inst@.edges, n as int, u as int);
    }
    let out_count: usize = targets.len();
    let mut i: usize = 0;
    while i < out_count
        invariant
            out_count == targets.len(),
            i <= out_count,
            flags.len() == n,
            before.len() == n,
            forall|j: int| 0 <= j < targets.len() ==> (#[trigger] targets[j]) < n,
            forall|w: int| 0 <= w < n ==> (#[trigger] flags[w]) == (before[w] || exists|j: int| 0 <= j < i && #[trigger] targets[j] == w),
        decreases out_count - i,
    {
        let t: usize = targets[i];
        flags.set(t, true);
        i = i + 1;
    }
    let ghost middle = flags@;
    let in_count: usize = sources.len();
    let mut i: usize = 0;
    while i < in_count
        invariant
            in_count == sources.len(),
            i <= in_count,
            flags.len() == n,
            middle.len() == n,
            forall|j: int| 0 <= j < sources.len() ==> (#[trigger] sources[j]) < n,
            forall|w: int| 0 <= w < n ==> (#[trigger] flags[w]) == (middle[w] || exists|j: int| 0 <= j < i && #[trigger] sources[j] == w),
        decreases in_count - i,
    {
        let t: usize = sources[i];
        flags.set(t, true);
        i = i + 1;
    }
    proof {
        assert forall|w: int| 0 <= w < n implies (#[trigger] flags[w]) == (before[w] || linked(
            inst@.edges,
            u as int,
            w,
        )) by {
            if linked(inst@.edges, u as int, w) {
                lemma_linked_is_neighbor(inst@.edges, u as int, w);
            }
        }
    }
}

/// The greedy pass at work: the assignment, the deferred nodes, and for each
/// node whether it has a placed neighbour.
struct Builder {
    assignment: Assignment,
    deferred: Vec<bool>,
    touched: Vec<bool>,
}

impl View for Builder {
    type V = BuildView;

    closed spec fn view(&self) -> BuildView {
        BuildView { asg: self.assignment@, deferred: self.deferred@ }
    }
}

impl Builder {
    spec fn wf(&self, inst: &ProblemInstance) -> bool {
        &&& self.assignment.wf(inst)
        &&& self.deferred.len() == inst@.node_count
        &&& self.touched.len() == inst@.node_count
        &&& forall|w: int| 0 <= w < inst@.node_count ==> (#[trigger] self.touched[w]) == touched(inst@, self.assignment@.slots, w)
    }

    fn new(inst: &ProblemInstance) -> (b: Builder)
        requires
            inst.wf(),
        ensures
            b.wf(inst),
            b@ == greedy_pass(inst@, 0),
    {
        let n: usize = inst.node_count();
        let assignment = Assignment::empty(inst);
        let mut deferred: Vec<bool> = Vec::new();
        let mut touched: Vec<bool> = Vec::new();
        let mut i: usize = 0;
        while i < n
            invariant
                i <= n,
                deferred.len() == i,
                touched.len() == i,
                forall|j: int| 0 <= j < i ==> !(#[trigger] deferred[j]),
                forall|j: int| 0 <= j < i ==> !(#[trigger] touched[j]),
            decreases n - i,
        {
            deferred.push(false);
            touched.push(false);
            i = i + 1;
        }
        assert(deferred@ =~= Seq::new(inst@.node_count, |i: int| false));
        Builder { assignment, deferred, touched }
    }

    fn is_waiting(&self, inst: &ProblemInstance, u: usize) -> (r: bool)
        requires
            self.wf(inst),
            u < inst@.node_count,
        ensures
            r == waiting(self@, u as int),
    {
        self.assignment.type_of(u).is_none() && !self.deferred[u]
    }

    /// The node to visit next.
    fn next_node(&self, inst: &ProblemInstance) -> (r: Option<usize>)
        requires
            inst.wf(),
            self.wf(inst),
        ensures
            r == next_node(inst@, self@),
            r matches Some(u) ==> waiting(self@, u as int),
    {
        let n: usize = inst.node_count();
        let mut u: usize = 0;
        while u < n
            invariant
                inst.wf(),
                self.wf(inst),
                n == inst@.node_count,
                u <= n,
                forall|w: int| 0 <= w < u ==> !ready(inst@, self@, w),
            decreases n - u,
        {
            if self.is_waiting(inst, u) && self.touched[u] {
                proof {
                    assert(ready(inst@, self@, u as int));
                    assert(is_next(inst@, self@, u as int));
                    let c = choose|c: usize| is_next(inst@, self@, c as int);
                    lemma_next_unique(inst@, self@, u as int, c as int);
                }
                return Some(u);
            }
            u = u + 1;
        }
        assert(!exists|w: int| ready(inst@, self@, w));
        let mut u: usize = 0;
        while u < n
            invariant
                inst.wf(),
                self.wf(inst),
                n == inst@.node_count,
                u <= n,
                !exists|w: int| ready(inst@, self@, w),
                forall|w: int| 0 <= w < u ==> !waiting(self@, w),
            decreases n - u,
        {
            if self.is_waiting(inst, u) {
                proof {
                    assert(is_next(inst@, self@, u as int));
                    let c = choose|c: usize| is_next(inst@, self@, c as int);
                    lemma_next_unique(inst@, self@, u as int, c as int);
                }
                return Some(u);
            }
            u = u + 1;
        }
        proof {
            assert forall|c: usize| !is_next(inst@, self@, c as int) by {
                assert(!waiting(self@, c as int));
            }
        }
        None
    }

    /// Visits `u`: places its best type, or defers it when that would raise the energy.
    fn visit(&mut self, inst: &ProblemInstance, u: usize)
        requires
            inst.wf(),
            old(self).wf(inst),
            waiting(old(self)@, u as int),
        ensures
            final(self).wf(inst),
            final(self)@ == visit(inst@, old(self)@, u as int),
    {
        match cheapest_type(&self.assignment, inst, u) {
            Some((ty, energy)) => {
                if energy <= 0 {
                    let ghost slots = self.assignment@.slots;
                    self.assignment.place(inst, u, ty);
                    mark_neighbors(inst, &mut self.touched, u);
                    proof {
                        assert forall|w: int| 0 <= w < inst@.node_count implies (#[trigger] self.touched[w])
                            == touched(inst@, self.assignment@.slots, w) by {
                            lemma_touched_after_place(inst@, slots, u as int, ty, w);
                        }
                    }
                } else {
                    self.deferred.set(u, true);
                }
            },
            None => {
                self.deferred.set(u, true);
            },
        }
    }
}

/// Builds a complete assignment that respects every quota.
///
/// The greedy pass visits each node once, the lowest unvisited node with a
/// placed neighbour first, or the lowest unvisited node when there is none.
/// The node receives, among the types with free quota, the one that adds the
/// least energy next to its placed neighbours, the lowest index on a tie;
/// when even that type would raise the energy, the node is deferred. The final
/// pass gives each deferred node, in ascending order, its best type.
///
/// On a valid instance the quotas cover the nodes, so the result is always `Ok`.
pub fn construct(inst: &ProblemInstance) -> (r: Result<Assignment, InfeasibleInstance>)
    requires
        inst.wf(),
    ensures
        r matches Ok(a) && a@ == constructed(inst@) && a.wf(inst) && a@.complete(),
{
    let n: usize = inst.node_count();
    let mut builder = Builder::new(inst);
    let mut step: usize = 0;
    while step < n
        invariant
            inst.wf(),
            n == inst@.node_count,
            step <= n,
            builder.wf(inst),
            builder@ == greedy_pass(inst@, step as nat),
        decreases n - step,
    {
        match builder.next_node(inst) {
            Some(u) => {
                builder.visit(inst, u);
            },
            None => {},
        }
        step = step + 1;
    }
    let mut assignment = builder.assignment;
    let ghost start = assignment@;
    let mut u: usize = 0;
    while u < n
        invariant
            inst.wf(),
            n == inst@.node_count,
            u <= n,
            assignment.wf(inst),
            assignment@ == final_pass(inst@, start, u as nat),
            forall|w: int| 0 <= w < u ==> (#[trigger] assignment@.slots[w]) is Some,
        decreases n - u,
    {
        if assignment.type_of(u).is_none() {
            match cheapest_type(&assignment, inst, u) {
                Some((ty, _)) => {
                    assignment.place(inst, u, ty);
                },
                None => {
                    proof {
                        let ty = lemma_free_node_has_type(assignment@, inst@, u as int);
                    }
                    return Err(InfeasibleInstance { node: u });
                },
            }
        }
        u = u + 1;
    }
    Ok(assignment)
}

} // verus!

//! A candidate solution: the atom type placed on each node, the quota that is
//! still free for each type, and the energy of what is placed, all three kept
//! in step by every change.
use vstd::prelude::*;
use crate::counting::{
    all_placed, count_of, lemma_count_update, lemma_counts_of_empty, lemma_placed_bound, lemma_placed_update,
    lemma_quota_sum_bounds, lemma_quota_sum_update, placed_count,
};
use crate::energy::{
    as_slots, energy_over, in_diff, in_term, lemma_complete_energy, lemma_energy_of_empty, lemma_energy_over_bound,
    lemma_energy_over_step, lemma_local_diff, out_diff, out_term, pair_energy, placed_energy, slot_fits, slots_fit,
    total_energy, Slots,
};
use crate::graph::{in_neighbors, lemma_in_neighbors_members, lemma_out_neighbors_members, out_neighbors};
use crate::problem::{quota_sum, Problem, ProblemInstance};

verus! {

/// The mathematical content of an assignment.
pub struct AssignmentView {
    /// For each node the atom type placed on it, if any.
    pub slots: Slots,
    /// For each atom type the number of nodes that may still receive it.
    pub remaining: Seq<u32>,
    /// The energy of the placed part.
    pub energy: int,
}

/// `slots` with the slot of `u` set to `new_u` and that of `v` set to `new_v`.
pub open spec fn changed(slots: Slots, u: int, v: int, new_u: Option<usize>, new_v: Option<usize>) -> Slots {
    slots.update(v, new_v).update(u, new_u)
}

/// `slots` with the contents of the slots of `u` and `v` exchanged.
pub open spec fn swapped(slots: Slots, u: int, v: int) -> Slots {
    changed(slots, u, v, slots[v], slots[u])
}

impl AssignmentView {
    /// The bookkeeping is consistent with the problem `p`: the free quota of each
    /// type is its quota less the nodes that hold it, and the energy is that of
    /// the placed part.
    pub open spec fn wf(self, p: Problem) -> bool {
        &&& slots_fit(p, self.slots)
        &&& self.remaining.len() == p.quota.len()
        &&& forall|ty: usize| 0 <= ty < p.quota.len() ==> (#[trigger] self.remaining[ty as int]) + count_of(self.slots, ty) == p.quota[ty as int]
        &&& placed_count(self.slots) + quota_sum(self.remaining) == p.node_count
        &&& self.energy == placed_energy(p, self.slots)
    }

    /// Every node has a type.
    pub open spec fn complete(self) -> bool {
        all_placed(self.slots)
    }

    /// The assignment with no node placed.
    pub open spec fn empty(p: Problem) -> AssignmentView {
        AssignmentView { slots: Seq::new(p.node_count, |i: int| None), remaining: p.quota, energy: 0 }
    }

    /// The assignment after `ty` is placed on `node`.
    pub open spec fn place(self, p: Problem, node: int, ty: usize) -> AssignmentView {
        let slots = self.slots.update(node, Some(ty));
        AssignmentView {
            slots,
            remaining: self.remaining.update(ty as int, (self.remaining[ty as int] - 1) as u32),
            energy: placed_energy(p, slots),
        }
    }

    /// The assignment after the slots of `u` and `v` are exchanged.
    pub open spec fn swap(self, p: Problem, u: int, v: int) -> AssignmentView {
        let slots = swapped(self.slots, u, v);
        AssignmentView { slots, remaining: self.remaining, energy: placed_energy(p, slots) }
    }

    /// The energy that placing `ty` on `node` adds.
    pub open spec fn marginal(self, p: Problem, node: int, ty: usize) -> int {
        placed_energy(p, self.slots.update(node, Some(ty))) - placed_energy(p, self.slots)
    }

    /// The change of energy that exchanging the slots of `u` and `v` brings.
    pub open spec fn swap_delta(self, p: Problem, u: int, v: int) -> int {
        placed_energy(p, swapped(self.slots, u, v)) - placed_energy(p, self.slots)
    }

    /// The types of a complete assignment, node by node.
    pub open spec fn types(self) -> Seq<usize> {
        Seq::new(self.slots.len(), |i: int| self.slots[i]->0)
    }
}

/// A complete and consistent assignment uses every quota exactly and its energy
/// is the sum of `energy[types[a]][types[b]]` over the edges `(a, b)`.
pub proof fn lemma_complete_assignment(a: AssignmentView, p: Problem)
    requires
        p.valid(),
        a.wf(p),
        a.complete(),
    ensures
        a.types().len() == p.node_count,
        forall|i: int| 0 <= i < a.types().len() ==> (#[trigger] a.types()[i]) < p.quota.len(),
        forall|ty: usize| 0 <= ty < p.quota.len() ==> (#[trigger] count_of(a.slots, ty)) == p.quota[ty as int],
        forall|ty: int| 0 <= ty < p.quota.len() ==> (#[trigger] a.remaining[ty]) == 0,
        a.slots == as_slots(a.types()),
        a.energy == total_energy(p, a.types()),
{
    lemma_placed_bound(a.slots);
    assert forall|ty: int| 0 <= ty < p.quota.len() implies (#[trigger] a.remaining[ty]) == 0 by {
        lemma_quota_sum_bounds(a.remaining, ty);
    }
    assert forall|ty: usize| 0 <= ty < p.quota.len() implies (#[trigger] count_of(a.slots, ty)) == p.quota[ty as int] by {
        assert(a.remaining[ty as int] == 0);
    }
    assert forall|i: int| 0 <= i < a.types().len() implies (#[trigger] a.types()[i]) < p.quota.len() by {
        assert(slot_fits(p, a.slots[i]));
    }
    assert(a.slots =~= as_slots(a.types()));
    lemma_complete_energy(p, a.types(), p.edges);
}

/// Placing a type with free quota on a free node keeps the bookkeeping consistent.
pub proof fn lemma_place_keeps_wf(a: AssignmentView, p: Problem, node: int, ty: usize)
    requires
        a.wf(p),
        0 <= node < p.node_count,
        ty < p.quota.len(),
        a.slots[node] is None,
        a.remaining[ty as int] > 0,
    ensures
        a.place(p, node, ty).wf(p),
{
    let after = a.place(p, node, ty);
    lemma_placed_update(a.slots, node, Some(ty));
    lemma_quota_sum_update(a.remaining, ty as int, (a.remaining[ty as int] - 1) as u32);
    assert forall|c: usize| 0 <= c < p.quota.len() implies (#[trigger] after.remaining[c as int]) + count_of(
        after.slots,
        c,
    ) == p.quota[c as int] by {
        lemma_count_update(a.slots, node, Some(ty), c);
        assert(a.remaining[c as int] + count_of(a.slots, c) == p.quota[c as int]);
    }
    assert forall|i: int| 0 <= i < after.slots.len() implies slot_fits(p, #[trigger] after.slots[i]) by {
        if i != node {
            assert(slot_fits(p, a.slots[i]));
        }
    }
}

/// Exchanging the slots of two nodes keeps the bookkeeping consistent, and a
/// complete assignment complete.
pub proof fn lemma_swap_keeps_wf(a: AssignmentView, p: Problem, u: int, v: int)
    requires
        a.wf(p),
        0 <= u < p.node_count,
        0 <= v < p.node_count,
    ensures
        a.swap(p, u, v).wf(p),
        a.swap(p, u, v).complete() == a.complete(),
{
    let mid = a.slots.update(v, a.slots[u]);
    let slots = swapped(a.slots, u, v);
    lemma_placed_update(a.slots, v, a.slots[u]);
    lemma_placed_update(mid, u, a.slots[v]);
    assert forall|c: usize| 0 <= c < p.quota.len() implies (#[trigger] a.remaining[c as int]) + count_of(slots, c)
        == p.quota[c as int] by {
        lemma_count_update(a.slots, v, a.slots[u], c);
        lemma_count_update(mid, u, a.slots[v], c);
    }
    assert forall|i: int| 0 <= i < slots.len() implies slot_fits(p, #[trigger] slots[i]) by {
        assert(slot_fits(p, a.slots[i]));
        assert(slot_fits(p, a.slots[u]));
        assert(slot_fits(p, a.slots[v]));
    }
    if a.complete() {
        assert forall|i: int| 0 <= i < slots.len() implies (#[trigger] slots[i]) is Some by {
            assert(a.slots[i] is Some);
            assert(a.slots[u] is Some);
            assert(a.slots[v] is Some);
        }
    }
    if all_placed(slots) {
        assert forall|i: int| 0 <= i < slots.len() implies (#[trigger] a.slots[i]) is Some by {
            assert(slots[i] is Some);
            assert(slots[u] is Some);
            assert(slots[v] is Some);
        }
    }
}

/// A partial assignment with its bookkeeping.
#[derive(Debug)]
pub struct Assignment {
    type_of_node: Vec<Option<usize>>,
    remaining_quota: Vec<u32>,
    total_energy: i128,
}

impl View for Assignment {
    type V = AssignmentView;

    closed spec fn view(&self) -> AssignmentView {
        AssignmentView {
            slots: self.type_of_node@,
            remaining: self.remaining_quota@,
            energy: self.total_energy as int,
        }
    }
}

/// The energy between two slots.
fn pair(inst: &ProblemInstance, from: Option<usize>, to: Option<usize>) -> (e: i32)
    requires
        inst.wf(),
        slot_fits(inst@, from),
        slot_fits(inst@, to),
    ensures
        e == pair_energy(inst@, from, to),
{
    match (from, to) {
        (Some(a), Some(b)) => inst.energy(a, b),
        _ => 0,
    }
}

/// The slot of `x` once the slot of `u` is `new_u` and that of `v` is `new_v`.
fn slot_after(
    slots: &Vec<Option<usize>>,
    x: usize,
    u: usize,
    v: usize,
    new_u: Option<usize>,
    new_v: Option<usize>,
) -> (r: Option<usize>)
    requires
        x < slots.len(),
        u < slots.len(),
        v < slots.len(),
    ensures
        r == changed(slots@, u as int, v as int, new_u, new_v)[x as int],
{
    if x == u {
        new_u
    } else if x == v {
        new_v
    } else {
        slots[x]
    }
}

/// The change of energy on the edges that leave `node`.
fn out_change(
    inst: &ProblemInstance,
    slots: &Vec<Option<usize>>,
    node: usize,
    u: usize,
    v: usize,
    new_u: Option<usize>,
    new_v: Option<usize>,
) -> (d: i128)
    requires
        inst.wf(),
        slots_fit(inst@, slots@),
        node < slots.len(),
        u < slots.len(),
        v < slots.len(),
        slot_fits(inst@, new_u),
        slot_fits(inst@, new_v),
    ensures
        d == out_diff(
            inst@,
            slots@,
            changed(slots@, u as int, v as int, new_u, new_v),
            node as int,
            out_neighbors(inst@.edges, node as int),
        ),
        -0x1_0000_0000_0000_0000_0000_0000 <= d <= 0x1_0000_0000_0000_0000_0000_0000,
{
    let targets = inst.neighbors(node);
    let ghost s2 = changed(slots@, u as int, v as int, new_u, new_v);
    let before = slots[node];
    let after = slot_after(slots, node, u, v, new_u, new_v);
    let count: usize = targets.len();
    let mut acc: i128 = 0;
    let mut j: usize = 0;
    proof {
        lemma_out_neighbors_members(inst@.edges, inst@.node_count as int, node as int);
    }
    while j < count
        invariant
            inst.wf(),
            slots_fit(inst@, slots@),
            node < slots.len(),
            u < slots.len(),
            v < slots.len(),
            slot_fits(inst@, new_u),
            slot_fits(inst@, new_v),
            s2 == changed(slots@, u as int, v as int, new_u, new_v),
            before == slots@[node as int],
            after == s2[node as int],
            count == targets.len(),
            j <= count,
            forall|i: int| 0 <= i < targets.len() ==> (#[trigger] targets@[i]) < inst@.node_count,
            acc == out_diff(inst@, slots@, s2, node as int, targets@.take(j as int)),
            -0x1_0000_0000 * j <= acc <= 0x1_0000_0000 * j,
        decreases count - j,
    {
        let t: usize = targets[j];
        let t_after = slot_after(slots, t, u, v, new_u, new_v);
        assert(slot_fits(inst@, slots@[t as int]));
        assert(slot_fits(inst@, slots@[node as int]));
        let term: i128 = pair(inst, after, t_after) as i128 - pair(inst, before, slots[t]) as i128;
        proof {
            assert(targets@.take(j + 1).drop_last() =~= targets@.take(j as int));
            assert(term == out_term(inst@, slots@, s2, node as int, t as int));
        }
        acc = acc + term;
        j = j + 1;
    }
    assert(targets@.take(count as int) =~= targets@);
    acc
}

/// The change of energy on the edges that enter `node` from nodes other than `u` and `v`.
fn in_change(
    inst: &ProblemInstance,
    slots: &Vec<Option<usize>>,
    node: usize,
    u: usize,
    v: usize,
    new_u: Option<usize>,
    new_v: Option<usize>,
) -> (d: i128)
    requires
        inst.wf(),
        slots_fit(inst@, slots@),
        node < slots.len(),
        u < slots.len(),
        v < slots.len(),
        slot_fits(inst@, new_u),
        slot_fits(inst@, new_v),
    ensures
        d == in_diff(
            inst@,
            slots@,
            changed(slots@, u as int, v as int, new_u, new_v),
            node as int,
            in_neighbors(inst@.edges, node as int),
            u as int,
            v as int,
        ),
        -0x1_0000_0000_0000_0000_0000_0000 <= d <= 0x1_0000_0000_0000_0000_0000_0000,
{
    let sources = inst.predecessors(node);
    let ghost s2 = changed(slots@, u as int, v as int, new_u, new_v);
    let before = slots[node];
    let after = slot_after(slots, node, u, v, new_u, new_v);
    let count: usize = sources.len();
    let mut acc: i128 = 0;
    let mut j: usize = 0;
    proof {
        lemma_in_neighbors_members(inst@.edges, inst@.node_count as int, node as int);
    }
    while j < count
        invariant
            inst.wf(),
            slots_fit(inst@, slots@),
            node < slots.len(),
            u < slots.len(),
            v < slots.len(),
            slot_fits(inst@, new_u),
            slot_fits(inst@, new_v),
            s2 == changed(slots@, u as int, v as int, new_u, new_v),
            before == slots@[node as int],
            after == s2[node as int],
            count == sources.len(),
            j <= count,
            forall|i: int| 0 <= i < sources.len() ==> (#[trigger] sources@[i]) < inst@.node_count,
            acc == in_diff(inst@, slots@, s2, node as int, sources@.take(j as int), u as int, v as int),
            -0x1_0000_0000 * j <= acc <= 0x1_0000_0000 * j,
        decreases count - j,
    {
        let t: usize = sources[j];
        proof {
            assert(sources@.take(j + 1).drop_last() =~= sources@.take(j as int));
        }
        if t != u && t != v {
            assert(slot_fits(inst@, slots@[t as int]));
            assert(slot_fits(inst@, slots@[node as int]));
            let term: i128 = pair(inst, slots[t], after) as i128 - pair(inst, slots[t], before) as i128;
            assert(term == in_term(inst@, slots@, s2, node as int, t as int, u as int, v as int));
            acc = acc + term;
        }
        j = j + 1;
    }
    assert(sources@.take(count as int) =~= sources@);
    acc
}

/// The change of energy when the slot of `u` becomes `new_u` and that of `v`
/// becomes `new_v`, found from the edges that touch `u` or `v` alone.
fn local_delta(
    inst: &ProblemInstance,
    slots: &Vec<Option<usize>>,
    u: usize,
    v: usize,
    new_u: Option<usize>,
    new_v: Option<usize>,
) -> (d: i128)
    requires
        inst.wf(),
        slots_fit(inst@, slots@),
        u < slots.len(),
        v < slots.len(),
        slot_fits(inst@, new_u),
        slot_fits(inst@, new_v),
    ensures
        d == placed_energy(inst@, changed(slots@, u as int, v as int, new_u, new_v)) - placed_energy(inst@, slots@),
{
    let ghost s2 = changed(slots@, u as int, v as int, new_u, new_v);
    proof {
        lemma_local_diff(inst@, slots@, s2, u as int, v as int, inst@.edges);
    }
    let around_u: i128 = out_change(inst, slots, u, u, v, new_u, new_v) + in_change(inst, slots, u, u, v, new_u, new_v);
    if u == v {
        around_u
    } else {
        let around_v: i128 = out_change(inst, slots, v, u, v, new_u, new_v) + in_change(
            inst,
            slots,
            v,
            u,
            v,
            new_u,
            new_v,
        );
        around_u + around_v
    }
}

impl Assignment {
    /// The assignment is consistent with the instance.
    pub open spec fn wf(&self, inst: &ProblemInstance) -> bool {
        self@.wf(inst@)
    }

    /// The assignment of `inst` with no node placed: every quota free, no energy.
    pub fn empty(inst: &ProblemInstance) -> (a: Assignment)
        requires
            inst.wf(),
        ensures
            a@ == AssignmentView::empty(inst@),
            a.wf(inst),
    {
        let n: usize = inst.node_count();
        let k: usize = inst.atom_count();
        let quota = inst.atom_quota();
        let mut type_of_node: Vec<Option<usize>> = Vec::new();
        let mut i: usize = 0;
        while i < n
            invariant
                i <= n,
                type_of_node.len() == i,
                forall|j: int| 0 <= j < i ==> (#[trigger] type_of_node[j]) is None,
            decreases n - i,
        {
            type_of_node.push(None);
            i = i + 1;
        }
        let mut remaining_quota: Vec<u32> = Vec::new();
        let mut c: usize = 0;
        while c < k
            invariant
                k == quota.len(),
                c <= k,
                remaining_quota.len() == c,
                forall|j: int| 0 <= j < c ==> (#[trigger] remaining_quota[j]) == quota[j],
            decreases k - c,
        {
            remaining_quota.push(quota[c]);
            c = c + 1;
        }
        proof {
            let slots = type_of_node@;
            assert(slots =~= AssignmentView::empty(inst@).slots);
            assert(remaining_quota@ =~= inst@.quota);
            lemma_counts_of_empty(slots, 0);
            assert forall|ty: usize| 0 <= ty < inst@.quota.len() implies (#[trigger] remaining_quota@[ty as int])
                + count_of(slots, ty) == inst@.quota[ty as int] by {
                lemma_counts_of_empty(slots, ty);
            }
            lemma_energy_of_empty(inst@, slots, inst@.edges);
        }
        Assignment { type_of_node, remaining_quota, total_energy: 0 }
    }

    /// The type placed on `node`, if any.
    pub fn type_of(&self, node: usize) -> (t: Option<usize>)
        requires
            node < self@.slots.len(),
        ensures
            t == self@.slots[node as int],
    {
        self.type_of_node[node]
    }

    /// The number of nodes that may still receive `ty`.
    pub fn remaining(&self, ty: usize) -> (q: u32)
        requires
            ty < self@.remaining.len(),
        ensures
            q == self@.remaining[ty as int],
    {
        self.remaining_quota[ty]
    }

    /// The energy of the placed part, as kept by the bookkeeping.
    pub fn total_energy(&self) -> (e: i128)
        ensures
            e == self@.energy,
    {
        self.total_energy
    }

    /// The energy that placing `ty` on `node` would add, found from the edges of `node` alone.
    pub fn marginal(&self, inst: &ProblemInstance, node: usize, ty: usize) -> (d: i128)
        requires
            inst.wf(),
            self.wf(inst),
            node < inst@.node_count,
            ty < inst@.quota.len(),
        ensures
            d == self@.marginal(inst@, node as int, ty),
    {
        assert(changed(self@.slots, node as int, node as int, Some(ty), Some(ty)) =~= self@.slots.update(
            node as int,
            Some(ty),
        ));
        local_delta(inst, &self.type_of_node, node, node, Some(ty), Some(ty))
    }

    /// The change of energy that exchanging the slots of `u` and `v` would bring,
    /// found from the edges of `u` and `v` alone.
    pub fn swap_delta(&self, inst: &ProblemInstance, u: usize, v: usize) -> (d: i128)
        requires
            inst.wf(),
            self.wf(inst),
            u < inst@.node_count,
            v < inst@.node_count,
        ensures
            d == self@.swap_delta(inst@, u as int, v as int),
    {
        assert(slot_fits(inst@, self@.slots[u as int]));
        assert(slot_fits(inst@, self@.slots[v as int]));
        local_delta(inst, &self.type_of_node, u, v, self.type_of_node[v], self.type_of_node[u])
    }

    /// Places `ty` on the free node `node`, taking one from the free quota of `ty`
    /// and adding the marginal energy.
    pub fn place(&mut self, inst: &ProblemInstance, node: usize, ty: usize)
        requires
            inst.wf(),
            old(self).wf(inst),
            node < inst@.node_count,
            ty < inst@.quota.len(),
            old(self)@.slots[node as int] is None,
            old(self)@.remaining[ty as int] > 0,
        ensures
            final(self)@ == old(self)@.place(inst@, node as int, ty),
            final(self).wf(inst),
    {
        let d: i128 = self.marginal(inst, node, ty);
        proof {
            lemma_place_keeps_wf(self@, inst@, node as int, ty);
            lemma_energy_over_bound(inst@, self@.slots, inst@.edges);
            lemma_energy_over_bound(inst@, self@.slots.update(node as int, Some(ty)), inst@.edges);
        }
        self.total_energy = self.total_energy + d;
        self.type_of_node.set(node, Some(ty));
        let free: u32 = self.remaining_quota[ty];
        self.remaining_quota.set(ty, free - 1);
    }

    /// Exchanges the slots of `u` and `v` and adds the change of energy.
    /// Every count, and so every free quota, stays as it is.
    pub fn swap(&mut self, inst: &ProblemInstance, u: usize, v: usize)
        requires
            inst.wf(),
            old(self).wf(inst),
            u < inst@.node_count,
            v < inst@.node_count,
        ensures
            final(self)@ == old(self)@.swap(inst@, u as int, v as int),
            final(self).wf(inst),
            final(self)@.complete() == old(self)@.complete(),
    {
        let d: i128 = self.swap_delta(inst, u, v);
        proof {
            lemma_swap_keeps_wf(self@, inst@, u as int, v as int);
            lemma_energy_over_bound(inst@, self@.slots, inst@.edges);
            lemma_energy_over_bound(inst@, swapped(self@.slots, u as int, v as int), inst@.edges);
        }
        let at_u = self.type_of_node[u];
        let at_v = self.type_of_node[v];
        self.total_energy = self.total_energy + d;
        self.type_of_node.set(v, at_u);
        self.type_of_node.set(u, at_v);
    }

    /// The type placed on `node`, which must be placed.
    pub fn type_at(&self, node: usize) -> (t: usize)
        requires
            node < self@.slots.len(),
            self@.slots[node as int] is Some,
        ensures
            Some(t) == self@.slots[node as int],
    {
        self.type_of_node[node].unwrap()
    }

    /// A copy of the assignment, for a run of its own.
    pub fn duplicate(&self) -> (a: Assignment)
        ensures
            a@ == self@,
    {
        let n: usize = self.type_of_node.len();
        let mut type_of_node: Vec<Option<usize>> = Vec::new();
        let mut i: usize = 0;
        while i < n
            invariant
                n == self.type_of_node.len(),
                i <= n,
                type_of_node.len() == i,
                forall|j: int| 0 <= j < i ==> (#[trigger] type_of_node[j]) == self.type_of_node[j],
            decreases n - i,
        {
            type_of_node.push(self.type_of_node[i]);
            i = i + 1;
        }
        let k: usize = self.remaining_quota.len();
        let mut remaining_quota: Vec<u32> = Vec::new();
        let mut c: usize = 0;
        while c < k
            invariant
                k == self.remaining_quota.len(),
                c <= k,
                remaining_quota.len() == c,
                forall|j: int| 0 <= j < c ==> (#[trigger] remaining_quota[j]) == self.remaining_quota[j],
            decreases k - c,
        {
            remaining_quota.push(self.remaining_quota[c]);
            c = c + 1;
        }
        assert(type_of_node@ =~= self.type_of_node@);
        assert(remaining_quota@ =~= self.remaining_quota@);
        Assignment { type_of_node, remaining_quota, total_energy: self.total_energy }
    }

    /// The energy of the placed part, computed afresh in one pass over the edges.
    pub fn evaluate(&self, inst: &ProblemInstance) -> (e: i128)
        requires
            inst.wf(),
            slots_fit(inst@, self@.slots),
        ensures
            e == placed_energy(inst@, self@.slots),
            self.wf(inst) ==> e == self@.energy,
    {
        let m: usize = inst.edge_count();
        let mut acc: i128 = 0;
        let mut i: usize = 0;
        while i < m
            invariant
                inst.wf(),
                slots_fit(inst@, self@.slots),
                m == inst@.edges.len(),
                i <= m,
                acc == energy_over(inst@, self@.slots, inst@.edges.take(i as int)),
                -0x8000_0000 * i <= acc <= 0x8000_0000 * i,
            decreases m - i,
        {
            let (from, to) = inst.edge(i);
            proof {
                lemma_energy_over_step(inst@, self@.slots, inst@.edges, i as int);
                assert(slot_fits(inst@, self@.slots[from as int]));
                assert(slot_fits(inst@, self@.slots[to as int]));
            }
            let term: i32 = pair(inst, self.type_of_node[from], self.type_of_node[to]);
            acc = acc + term as i128;
            i = i + 1;
        }
        assert(inst@.edges.take(m as int) =~= inst@.edges);
        acc
    }

    /// Whether every node has a type.
    pub fn is_complete(&self) -> (b: bool)
        ensures
            b == self@.complete(),
    {
        let n: usize = self.type_of_node.len();
        let mut i: usize = 0;
        while i < n
            invariant
                n == self.type_of_node.len(),
                i <= n,
                forall|j: int| 0 <= j < i ==> (#[trigger] self.type_of_node[j]) is Some,
            decreases n - i,
        {
            if self.type_of_node[i].is_none() {
                return false;
            }
            i = i + 1;
        }
        true
    }

    /// The types of a complete assignment, node by node.
    pub fn types(&self) -> (t: Vec<usize>)
        requires
            self@.complete(),
        ensures
            t@ == self@.types(),
    {
        let n: usize = self.type_of_node.len();
        let mut t: Vec<usize> = Vec::new();
        let mut i: usize = 0;
        while i < n
            invariant
                self@.complete(),
                n == self.type_of_node.len(),
                i <= n,
                t.len() == i,
                forall|j: int| 0 <= j < i ==> (#[trigger] t[j]) == self.type_of_node[j]->0,
            decreases n - i,
        {
            match self.type_of_node[i] {
                Some(ty) => {
                    t.push(ty);
                },
                None => {
                    assert(self@.slots[i as int] is Some);
                },
            }
            i = i + 1;
        }
        assert(t@ =~= self@.types());
        t
    }
}

} // verus!

//! The choice of an atom type for one node: the type with free quota that adds
//! the least energy next to what is already placed.
use vstd::prelude::*;
use crate::assignment::{Assignment, AssignmentView};
use crate::problem::{Problem, ProblemInstance};

verus! {

/// The type `ty` has free quota.
pub open spec fn type_free(a: AssignmentView, ty: usize) -> bool {
    ty < a.remaining.len() && a.remaining[ty as int] > 0
}

/// Placing `b` on `node` is no worse than placing `ty`: it adds less energy,
/// or as much and `b` is the lower index.
pub open spec fn no_worse(a: AssignmentView, p: Problem, node: int, b: usize, ty: usize) -> bool {
    a.marginal(p, node, b) < a.marginal(p, node, ty) || (a.marginal(p, node, b) == a.marginal(p, node, ty) && b
        <= ty)
}

/// Among the types below `upto` with free quota, `b` is the best choice for `node`.
pub open spec fn is_best_among(a: AssignmentView, p: Problem, node: int, b: usize, upto: int) -> bool {
    &&& type_free(a, b)
    &&& b < upto
    &&& forall|ty: usize| ty < upto && #[trigger] type_free(a, ty) ==> no_worse(a, p, node, b, ty)
}

/// Among all types with free quota, `b` adds the least energy on `node`, and
/// is the lowest index among those that add the least.
pub open spec fn is_best_type(a: AssignmentView, p: Problem, node: int, b: usize) -> bool {
    is_best_among(a, p, node, b, a.remaining.len() as int)
}

/// The best type for `node`, or `None` when no type has free quota.
pub open spec fn best_type(a: AssignmentView, p: Problem, node: int) -> Option<usize> {
    if exists|b: usize| is_best_type(a, p, node, b) {
        Some(choose|b: usize| is_best_type(a, p, node, b))
    } else {
        None
    }
}

/// There is at most one best type.
pub proof fn lemma_best_type_unique(a: AssignmentView, p: Problem, node: int, b1: usize, b2: usize)
    requires
        is_best_type(a, p, node, b1),
        is_best_type(a, p, node, b2),
    ensures
        b1 == b2,
{
    assert(no_worse(a, p, node, b1, b2));
    assert(no_worse(a, p, node, b2, b1));
}

/// Chooses the type to place on `node`, and says what energy it adds: among
/// the types with free quota the one that adds the least energy, and of several
/// such the lowest index. `None` means that no type has free quota.
pub fn cheapest_type(a: &Assignment, inst: &ProblemInstance, node: usize) -> (r: Option<(usize, i128)>)
    requires
        inst.wf(),
        a.wf(inst),
        node < inst@.node_count,
    ensures
        r matches Some((b, energy)) ==> best_type(a@, inst@, node as int) == Some(b) && is_best_type(
            a@,
            inst@,
            node as int,
            b,
        ) && energy == a@.marginal(inst@, node as int, b),
        r is None ==> best_type(a@, inst@, node as int) is None,
        r is None <==> forall|ty: usize| !type_free(a@, ty),
{
    let k: usize = inst.atom_count();
    let mut best: Option<(usize, i128)> = None;
    let mut ty: usize = 0;
    while ty < k
        invariant
            inst.wf(),
            a.wf(inst),
            node < inst@.node_count,
            k == inst@.quota.len(),
            ty <= k,
            match best {
                Some((b, energy)) => is_best_among(a@, inst@, node as int, b, ty as int) && energy == a@.marginal(
                    inst@,
                    node as int,
                    b,
                ),
                None => forall|t: usize| t < ty ==> !type_free(a@, t),
            },
        decreases k - ty,
    {
        if a.remaining(ty) > 0 {
            let energy: i128 = a.marginal(inst, node, ty);
            match best {
                Some((_, least)) => {
                    if energy < least {
                        best = Some((ty, energy));
                    }
                },
                None => {
                    best = Some((ty, energy));
                },
            }
        }
        ty = ty + 1;
    }
    proof {
        match best {
            Some((b, _)) => {
                assert(is_best_type(a@, inst@, node as int, b));
                lemma_best_type_unique(
                    a@,
                    inst@,
                    node as int,
                    b,
                    choose|c: usize| is_best_type(a@, inst@, node as int, c),
                );
            },
            None => {
                assert forall|c: usize| !is_best_type(a@, inst@, node as int, c) by {
                    assert(!type_free(a@, c));
                }
            },
        }
    }
    best
}

/// Chooses the type to place on `node`: among the types with free quota the
/// one that adds the least energy, and of several such the lowest index.
/// `None` means that no type has free quota.
pub fn choose_type(a: &Assignment, inst: &ProblemInstance, node: usize) -> (r: Option<usize>)
    requires
        inst.wf(),
        a.wf(inst),
        node < inst@.node_count,
    ensures
        r == best_type(a@, inst@, node as int),
        r matches Some(b) ==> is_best_type(a@, inst@, node as int, b),
        r is None <==> forall|ty: usize| !type_free(a@, ty),
{
    match cheapest_type(a, inst, node) {
        Some((ty, _)) => Some(ty),
        None => None,
    }
}

} // verus!

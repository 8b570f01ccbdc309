//! Counting over partial assignments and quota vectors.
use vstd::prelude::*;
use crate::energy::Slots;
use crate::problem::quota_sum;

verus! {

/// The number of nodes on which `ty` is placed.
pub open spec fn count_of(slots: Slots, ty: usize) -> nat
    decreases slots.len(),
{
    if slots.len() == 0 {
        0
    } else {
        count_of(slots.drop_last(), ty) + holds(slots.last(), ty)
    }
}

/// One if the slot holds `ty`, zero otherwise.
pub open spec fn holds(slot: Option<usize>, ty: usize) -> nat {
    if slot == Some(ty) {
        1
    } else {
        0
    }
}

/// The number of nodes on which some type is placed.
pub open spec fn placed_count(slots: Slots) -> nat
    decreases slots.len(),
{
    if slots.len() == 0 {
        0
    } else {
        placed_count(slots.drop_last()) + filled(slots.last())
    }
}

/// One if the slot is placed, zero otherwise.
pub open spec fn filled(slot: Option<usize>) -> nat {
    if slot is Some {
        1
    } else {
        0
    }
}

/// Every node is placed.
pub open spec fn all_placed(slots: Slots) -> bool {
    forall|i: int| 0 <= i < slots.len() ==> (#[trigger] slots[i]) is Some
}

/// Replacing one slot changes the count of a type by what left and what came.
pub proof fn lemma_count_update(slots: Slots, i: int, slot: Option<usize>, ty: usize)
    requires
        0 <= i < slots.len(),
    ensures
        count_of(slots.update(i, slot), ty) + holds(slots[i], ty) == count_of(slots, ty) + holds(slot, ty),
    decreases slots.len(),
{
    let changed = slots.update(i, slot);
    if i == slots.len() - 1 {
        assert(changed.drop_last() =~= slots.drop_last());
    } else {
        assert(changed.drop_last() =~= slots.drop_last().update(i, slot));
        lemma_count_update(slots.drop_last(), i, slot, ty);
    }
}

/// Replacing one slot changes the number of placed nodes by what left and what came.
pub proof fn lemma_placed_update(slots: Slots, i: int, slot: Option<usize>)
    requires
        0 <= i < slots.len(),
    ensures
        placed_count(slots.update(i, slot)) + filled(slots[i]) == placed_count(slots) + filled(slot),
    decreases slots.len(),
{
    let changed = slots.update(i, slot);
    if i == slots.len() - 1 {
        assert(changed.drop_last() =~= slots.drop_last());
    } else {
        assert(changed.drop_last() =~= slots.drop_last().update(i, slot));
        lemma_placed_update(slots.drop_last(), i, slot);
    }
}

/// The placed nodes are at most all nodes, and they are all nodes exactly when every node is placed.
pub proof fn lemma_placed_bound(slots: Slots)
    ensures
        placed_count(slots) <= slots.len(),
        placed_count(slots) == slots.len() <==> all_placed(slots),
    decreases slots.len(),
{
    if slots.len() > 0 {
        let rest = slots.drop_last();
        lemma_placed_bound(rest);
        if all_placed(slots) {
            assert forall|i: int| 0 <= i < rest.len() implies (#[trigger] rest[i]) is Some by {
                assert(slots[i] is Some);
            }
            assert(slots[slots.len() - 1] is Some);
        }
        if placed_count(slots) == slots.len() {
            assert forall|i: int| 0 <= i < slots.len() implies (#[trigger] slots[i]) is Some by {
                if i < rest.len() {
                    assert(rest[i] is Some);
                }
            }
        }
    }
}

/// A partial assignment with no node placed counts nothing.
pub proof fn lemma_counts_of_empty(slots: Slots, ty: usize)
    requires
        forall|i: int| 0 <= i < slots.len() ==> (#[trigger] slots[i]) is None,
    ensures
        count_of(slots, ty) == 0,
        placed_count(slots) == 0,
    decreases slots.len(),
{
    if slots.len() > 0 {
        let rest = slots.drop_last();
        assert forall|i: int| 0 <= i < rest.len() implies (#[trigger] rest[i]) is None by {
            assert(slots[i] is None);
        }
        assert(slots[slots.len() - 1] is None);
        lemma_counts_of_empty(rest, ty);
    }
}

/// Replacing one quota changes the sum by the difference.
pub proof fn lemma_quota_sum_update(quota: Seq<u32>, i: int, value: u32)
    requires
        0 <= i < quota.len(),
    ensures
        quota_sum(quota.update(i, value)) + quota[i] == quota_sum(quota) + value,
    decreases quota.len(),
{
    let changed = quota.update(i, value);
    if i == quota.len() - 1 {
        assert(changed.drop_last() =~= quota.drop_last());
    } else {
        assert(changed.drop_last() =~= quota.drop_last().update(i, value));
        lemma_quota_sum_update(quota.drop_last(), i, value);
    }
}

/// No quota exceeds the sum, so a sum of zero leaves every quota at zero.
pub proof fn lemma_quota_sum_bounds(quota: Seq<u32>, i: int)
    requires
        0 <= i < quota.len(),
    ensures
        quota[i] <= quota_sum(quota),
    decreases quota.len(),
{
    if i < quota.len() - 1 {
        lemma_quota_sum_bounds(quota.drop_last(), i);
    }
}

/// A positive sum has a positive entry.
pub proof fn lemma_quota_sum_positive(quota: Seq<u32>) -> (i: int)
    requires
        quota_sum(quota) > 0,
    ensures
        0 <= i < quota.len(),
        quota[i] > 0,
    decreases quota.len(),
{
    if quota.last() > 0 {
        quota.len() - 1
    } else {
        lemma_quota_sum_positive(quota.drop_last())
    }
}

} // verus!

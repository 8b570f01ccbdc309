use atom_assign::assignment::Assignment;
use atom_assign::problem::ProblemInstance;

fn instance(energy: Vec<Vec<i32>>, quota: Vec<u32>, nodes: usize, edges: Vec<(usize, usize)>) -> ProblemInstance {
    ProblemInstance::new(nodes, quota, energy, edges).unwrap()
}

fn assignment_of(inst: &ProblemInstance, types: &[usize]) -> Assignment {
    let mut a = Assignment::empty(inst);
    for (node, ty) in types.iter().enumerate() {
        assert!(a.type_of(node).is_none());
        assert!(a.remaining(*ty) > 0);
        a.place(inst, node, *ty);
    }
    a
}

fn from_scratch(energy: &[Vec<i32>], edges: &[(usize, usize)], types: &[usize]) -> i128 {
    edges.iter().map(|(a, b)| energy[types[*a]][types[*b]] as i128).sum()
}

#[test]
fn empty_assignment_has_all_quota_and_no_energy() {
    let inst = instance(vec![vec![0, 1], vec![1, 0]], vec![3, 1], 4, vec![(0, 1), (1, 2)]);
    let a = Assignment::empty(&inst);
    assert_eq!(a.total_energy(), 0);
    assert_eq!(a.remaining(0), 3);
    assert_eq!(a.remaining(1), 1);
    assert_eq!(a.type_of(2), None);
    assert!(!a.is_complete());
    assert_eq!(a.evaluate(&inst), 0);
}

#[test]
fn place_updates_quota_and_energy() {
    let energy = vec![vec![10, 20], vec![30, 40]];
    let inst = instance(energy, vec![1, 2], 3, vec![(0, 1), (1, 2), (2, 0)]);
    let mut a = Assignment::empty(&inst);
    a.place(&inst, 1, 1);
    assert_eq!(a.total_energy(), 0);
    assert_eq!(a.remaining(1), 1);
    assert_eq!(a.marginal(&inst, 0, 0), 20);
    assert_eq!(a.marginal(&inst, 0, 1), 40);
    assert_eq!(a.marginal(&inst, 2, 0), 30);
    a.place(&inst, 0, 0);
    assert_eq!(a.total_energy(), 20);
    assert_eq!(a.marginal(&inst, 2, 1), 40 + 30);
    a.place(&inst, 2, 1);
    assert_eq!(a.total_energy(), 20 + 40 + 30);
    assert_eq!(a.remaining(0), 0);
    assert_eq!(a.remaining(1), 0);
    assert!(a.is_complete());
    assert_eq!(a.types(), vec![0, 1, 1]);
    assert_eq!(a.evaluate(&inst), 90);
}

#[test]
fn marginal_counts_a_self_loop_once() {
    let inst = instance(vec![vec![5, 1], vec![1, 7]], vec![1, 1], 2, vec![(0, 0), (0, 1), (1, 0)]);
    let mut a = Assignment::empty(&inst);
    assert_eq!(a.marginal(&inst, 0, 0), 5);
    assert_eq!(a.marginal(&inst, 0, 1), 7);
    a.place(&inst, 0, 1);
    assert_eq!(a.total_energy(), 7);
    assert_eq!(a.marginal(&inst, 1, 0), 1 + 1);
}

#[test]
fn energy_is_not_assumed_symmetric() {
    let energy = vec![vec![0, 3], vec![-8, 0]];
    let inst = instance(energy.clone(), vec![1, 1], 2, vec![(0, 1)]);
    let forward = assignment_of(&inst, &[0, 1]);
    assert_eq!(forward.total_energy(), 3);
    let inst = instance(energy, vec![1, 1], 2, vec![(0, 1)]);
    let backward = assignment_of(&inst, &[1, 0]);
    assert_eq!(backward.total_energy(), -8);
}

#[test]
fn swap_delta_matches_recomputation() {
    let energy = vec![vec![1, -4, 9], vec![2, 0, -3], vec![7, 5, -6]];
    let edges = vec![(0, 1), (1, 0), (1, 2), (2, 3), (3, 1), (3, 3), (0, 3), (2, 0), (1, 1), (4, 2)];
    let inst = instance(energy.clone(), vec![2, 2, 1], 5, edges.clone());
    let types = [0usize, 1, 2, 1, 0];
    let a = assignment_of(&inst, &types);
    assert_eq!(a.total_energy(), from_scratch(&energy, &edges, &types));
    for u in 0..5 {
        for v in 0..5 {
            let mut swapped = types;
            swapped.swap(u, v);
            let expected = from_scratch(&energy, &edges, &swapped) - from_scratch(&energy, &edges, &types);
            assert_eq!(a.swap_delta(&inst, u, v), expected);
        }
    }
}

#[test]
fn edge_between_swapped_nodes_is_counted_once() {
    let inst = instance(vec![vec![0, 10], vec![1, 0]], vec![1, 1], 2, vec![(0, 1)]);
    let a = assignment_of(&inst, &[0, 1]);
    assert_eq!(a.total_energy(), 10);
    assert_eq!(a.swap_delta(&inst, 0, 1), 1 - 10);
    assert_eq!(a.swap_delta(&inst, 1, 0), 1 - 10);
    assert_eq!(a.swap_delta(&inst, 0, 0), 0);
}

#[test]
fn swap_keeps_bookkeeping_in_step() {
    let energy = vec![vec![1, -4], vec![2, 0]];
    let edges = vec![(0, 1), (1, 2), (2, 3), (3, 0), (0, 2)];
    let inst = instance(energy.clone(), vec![2, 2], 4, edges.clone());
    let mut a = assignment_of(&inst, &[0, 1, 0, 1]);
    let before = a.total_energy();
    let delta = a.swap_delta(&inst, 0, 1);
    a.swap(&inst, 0, 1);
    assert_eq!(a.types(), vec![1, 0, 0, 1]);
    assert_eq!(a.total_energy(), before + delta);
    assert_eq!(a.total_energy(), from_scratch(&energy, &edges, &[1, 0, 0, 1]));
    assert_eq!(a.evaluate(&inst), a.total_energy());
    assert_eq!(a.remaining(0), 0);
    assert_eq!(a.remaining(1), 0);
    assert!(a.is_complete());
}

#[test]
fn extreme_energies_do_not_overflow() {
    let edges: Vec<(usize, usize)> = (0..6).map(|i| (i % 2, (i + 1) % 2)).collect();
    let inst = instance(vec![vec![i32::MAX, i32::MIN], vec![i32::MIN, i32::MAX]], vec![1, 1], 2, edges);
    let a = assignment_of(&inst, &[0, 1]);
    assert_eq!(a.total_energy(), 6 * (i32::MIN as i128));
    assert_eq!(a.swap_delta(&inst, 0, 1), 0);
    let inst = instance(vec![vec![i32::MAX, i32::MIN], vec![i32::MIN, i32::MAX]], vec![2, 0], 2, vec![(0, 1), (1, 0)]);
    let same = assignment_of(&inst, &[0, 0]);
    assert_eq!(same.total_energy(), 2 * (i32::MAX as i128));
}

#[test]
fn duplicate_is_independent() {
    let inst = instance(vec![vec![0, 1], vec![1, 0]], vec![1, 1], 2, vec![(0, 1)]);
    let a = assignment_of(&inst, &[0, 1]);
    let mut b = a.duplicate();
    b.swap(&inst, 0, 1);
    assert_eq!(a.types(), vec![0, 1]);
    assert_eq!(b.types(), vec![1, 0]);
    assert_eq!(a.type_at(0), 0);
    assert_eq!(b.type_at(0), 1);
}

use atom_assign::problem::{InvalidInstance, ProblemInstance};

fn cycle_edges() -> Vec<(usize, usize)> {
    vec![(0, 1), (1, 2), (2, 3), (3, 0)]
}

#[test]
fn valid_instance_exposes_its_parts() {
    let inst = ProblemInstance::new(4, vec![1, 3], vec![vec![0, 7], vec![-2, 5]], cycle_edges()).unwrap();
    assert_eq!(inst.node_count(), 4);
    assert_eq!(inst.atom_count(), 2);
    assert_eq!(inst.atom_quota(), &vec![1u32, 3]);
    assert_eq!(inst.edge_count(), 4);
    assert_eq!(inst.edge(2), (2, 3));
    assert_eq!(inst.energy(0, 1), 7);
    assert_eq!(inst.energy(1, 0), -2);
    assert_eq!(inst.energy(1, 1), 5);
}

#[test]
fn adjacency_follows_the_edge_list() {
    let edges = vec![(0, 2), (1, 0), (0, 1), (2, 2), (0, 2)];
    let inst = ProblemInstance::new(3, vec![3], vec![vec![0]], edges).unwrap();
    assert_eq!(inst.neighbors(0), &vec![2usize, 1, 2]);
    assert_eq!(inst.neighbors(1), &vec![0usize]);
    assert_eq!(inst.neighbors(2), &vec![2usize]);
    assert_eq!(inst.predecessors(0), &vec![1usize]);
    assert_eq!(inst.predecessors(1), &vec![0usize]);
    assert_eq!(inst.predecessors(2), &vec![0usize, 2, 0]);
}

#[test]
fn empty_instance_is_valid() {
    let inst = ProblemInstance::new(0, vec![], vec![], vec![]).unwrap();
    assert_eq!(inst.node_count(), 0);
    assert_eq!(inst.atom_count(), 0);
    assert_eq!(inst.edge_count(), 0);
}

#[test]
fn zero_quota_is_allowed() {
    let inst = ProblemInstance::new(2, vec![0, 2], vec![vec![1, 2], vec![3, 4]], vec![(0, 1)]).unwrap();
    assert_eq!(inst.atom_quota(), &vec![0u32, 2]);
}

#[test]
fn quota_mismatch_is_refused() {
    let err = ProblemInstance::new(4, vec![2, 3], vec![vec![0, 1], vec![1, 0]], cycle_edges()).unwrap_err();
    assert_eq!(err, InvalidInstance::QuotaMismatch { node_count: 4, quota_total: 5 });
}

#[test]
fn quota_total_does_not_wrap() {
    let err = ProblemInstance::new(0, vec![u32::MAX, u32::MAX, 2], vec![], vec![]).unwrap_err();
    assert_eq!(err, InvalidInstance::QuotaMismatch { node_count: 0, quota_total: 8_589_934_592 });
}

#[test]
fn wrong_row_count_is_refused() {
    let err = ProblemInstance::new(4, vec![2, 2], vec![vec![0, 1]], cycle_edges()).unwrap_err();
    assert_eq!(err, InvalidInstance::EnergyRowCount { atom_count: 2, rows: 1 });
}

#[test]
fn wrong_row_length_is_refused() {
    let err =
        ProblemInstance::new(4, vec![2, 1, 1], vec![vec![0, 1, 2], vec![1, 0], vec![5]], cycle_edges()).unwrap_err();
    assert_eq!(err, InvalidInstance::EnergyRowLength { row: 1, atom_count: 3, length: 2 });
}

#[test]
fn edge_out_of_range_is_refused() {
    let edges = vec![(0, 1), (1, 4), (7, 0)];
    let err = ProblemInstance::new(4, vec![2, 2], vec![vec![0, 1], vec![1, 0]], edges).unwrap_err();
    assert_eq!(err, InvalidInstance::EdgeOutOfRange { edge: 1, node: 4, node_count: 4 });
}

#[test]
fn edge_source_is_reported_before_target() {
    let edges = vec![(9, 8)];
    let err = ProblemInstance::new(4, vec![2, 2], vec![vec![0, 1], vec![1, 0]], edges).unwrap_err();
    assert_eq!(err, InvalidInstance::EdgeOutOfRange { edge: 0, node: 9, node_count: 4 });
}

#[test]
fn quota_is_checked_before_shape_and_edges() {
    let err = ProblemInstance::new(3, vec![1], vec![], vec![(5, 5)]).unwrap_err();
    assert_eq!(err, InvalidInstance::QuotaMismatch { node_count: 3, quota_total: 1 });
}

#[test]
fn self_loops_are_legal() {
    let inst = ProblemInstance::new(1, vec![1], vec![vec![3]], vec![(0, 0)]).unwrap();
    assert_eq!(inst.neighbors(0), &vec![0usize]);
    assert_eq!(inst.predecessors(0), &vec![0usize]);
}

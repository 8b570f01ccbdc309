use atom_assign::assignment::Assignment;
use atom_assign::choice::{cheapest_type, choose_type};
use atom_assign::construct::construct;
use atom_assign::pairs::sorted_type_pairs;
use atom_assign::problem::ProblemInstance;

fn cycle(energy: Vec<Vec<i32>>) -> ProblemInstance {
    ProblemInstance::new(4, vec![2, 2], energy, vec![(0, 1), (1, 2), (2, 3), (3, 0)]).unwrap()
}

fn counts(types: &[usize], k: usize) -> Vec<u32> {
    let mut c = vec![0u32; k];
    for t in types {
        c[*t] += 1;
    }
    c
}

#[test]
fn pairs_are_sorted_by_energy() {
    let inst = ProblemInstance::new(0, vec![0, 0, 0], vec![vec![5, -1, 3], vec![3, 0, 9], vec![-1, 3, -7]], vec![])
        .unwrap();
    assert_eq!(
        sorted_type_pairs(&inst),
        vec![(2, 2), (0, 1), (2, 0), (1, 1), (0, 2), (1, 0), (2, 1), (0, 0), (1, 2)]
    );
}

#[test]
fn pairs_of_equal_energy_keep_row_order() {
    let inst = ProblemInstance::new(0, vec![0, 0], vec![vec![4, 4], vec![4, 4]], vec![]).unwrap();
    assert_eq!(sorted_type_pairs(&inst), vec![(0, 0), (0, 1), (1, 0), (1, 1)]);
}

#[test]
fn pairs_of_no_type_are_none() {
    let inst = ProblemInstance::new(0, vec![], vec![], vec![]).unwrap();
    assert_eq!(sorted_type_pairs(&inst), vec![]);
}

#[test]
fn choice_takes_the_cheapest_free_type() {
    let inst =
        ProblemInstance::new(3, vec![1, 1, 1], vec![vec![0, 9, 4], vec![9, 0, 2], vec![4, 2, 0]], vec![(0, 1), (2, 1)])
            .unwrap();
    let mut a = Assignment::empty(&inst);
    assert_eq!(choose_type(&a, &inst, 1), Some(0));
    a.place(&inst, 0, 0);
    assert_eq!(cheapest_type(&a, &inst, 1), Some((2, 4)));
    a.place(&inst, 2, 2);
    assert_eq!(cheapest_type(&a, &inst, 1), Some((1, 9 + 2)));
    a.place(&inst, 1, 1);
    assert_eq!(choose_type(&a, &inst, 1), None);
}

#[test]
fn choice_breaks_ties_by_lowest_index() {
    let inst =
        ProblemInstance::new(2, vec![0, 1, 1], vec![vec![0, 0, 0], vec![0, 3, 3], vec![0, 3, 3]], vec![(0, 1)]).unwrap();
    let mut a = Assignment::empty(&inst);
    assert_eq!(choose_type(&a, &inst, 0), Some(1));
    a.place(&inst, 0, 2);
    assert_eq!(cheapest_type(&a, &inst, 1), Some((1, 3)));
}

#[test]
fn construct_clusters_on_the_cycle() {
    let inst = cycle(vec![vec![0, 1], vec![1, 0]]);
    let a = construct(&inst).unwrap();
    assert!(a.is_complete());
    assert_eq!(a.types(), vec![0, 0, 1, 1]);
    assert_eq!(a.total_energy(), 2);
    assert_eq!(a.evaluate(&inst), 2);
    assert_eq!(a.remaining(0), 0);
    assert_eq!(a.remaining(1), 0);
}

#[test]
fn construct_defers_nodes_that_would_raise_the_energy() {
    let inst =
        ProblemInstance::new(4, vec![2, 2], vec![vec![1, 2], vec![2, 1]], vec![(0, 1), (1, 2), (2, 3)]).unwrap();
    let a = construct(&inst).unwrap();
    assert_eq!(a.types(), vec![0, 1, 0, 1]);
    assert_eq!(a.total_energy(), 6);
}

#[test]
fn construct_follows_connectivity_before_index_order() {
    let energy = vec![vec![-1, 0], vec![0, -1]];
    let inst = ProblemInstance::new(4, vec![2, 2], energy, vec![(0, 3), (1, 2)]).unwrap();
    let a = construct(&inst).unwrap();
    assert_eq!(a.types(), vec![0, 1, 1, 0]);
    assert_eq!(a.total_energy(), -2);
}

#[test]
fn construct_respects_quotas() {
    let energy = vec![vec![3, -2, 1], vec![0, 4, -5], vec![2, 2, 2]];
    let edges = vec![(0, 1), (1, 2), (2, 3), (3, 4), (4, 5), (5, 6), (6, 0), (2, 5), (1, 1), (3, 0)];
    let inst = ProblemInstance::new(7, vec![3, 0, 4], energy, edges).unwrap();
    let a = construct(&inst).unwrap();
    assert!(a.is_complete());
    assert_eq!(counts(&a.types(), 3), vec![3, 0, 4]);
    assert_eq!(a.evaluate(&inst), a.total_energy());
}

#[test]
fn construct_on_nothing_is_empty() {
    let inst = ProblemInstance::new(0, vec![0], vec![vec![1]], vec![]).unwrap();
    let a = construct(&inst).unwrap();
    assert!(a.is_complete());
    assert_eq!(a.types(), Vec::<usize>::new());
    assert_eq!(a.total_energy(), 0);
}

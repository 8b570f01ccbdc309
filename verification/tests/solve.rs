use atom_assign::problem::ProblemInstance;
use atom_assign::search::SearchStatus;
use atom_assign::solver::{
    energy_scale_of, improves, run_trial, solve, standard_config_of, trial_seed_of, Solution,
};
use atom_assign::construct::construct;

fn cycle(energy: Vec<Vec<i32>>) -> ProblemInstance {
    ProblemInstance::new(4, vec![2, 2], energy, vec![(0, 1), (1, 2), (2, 3), (3, 0)]).unwrap()
}

fn from_scratch(energy: &[Vec<i32>], edges: &[(usize, usize)], types: &[usize]) -> i128 {
    edges.iter().map(|(a, b)| energy[types[*a]][types[*b]] as i128).sum()
}

fn counts(types: &[usize], k: usize) -> Vec<u32> {
    let mut c = vec![0u32; k];
    for t in types {
        c[*t] += 1;
    }
    c
}

#[test]
fn four_cycle_with_costly_mixing() {
    let energy = vec![vec![0, 1], vec![1, 0]];
    let edges = [(0, 1), (1, 2), (2, 3), (3, 0)];
    let inst = cycle(energy.clone());
    assert_eq!(from_scratch(&energy, &edges, &[0, 1, 0, 1]), 4);
    let s = solve(&inst, 4, 7, 1000).unwrap();
    assert_eq!(s.assignment.len(), 4);
    assert_eq!(counts(&s.assignment, 2), vec![2, 2]);
    assert_eq!(s.total_energy, from_scratch(&energy, &edges, &s.assignment));
    assert!(s.total_energy <= 4);
    assert_eq!(s.total_energy, 2);
    assert_eq!(s.status, SearchStatus::Converged);
}

#[test]
fn four_cycle_with_self_affinity() {
    let energy = vec![vec![-1, 0], vec![0, -1]];
    let edges = [(0, 1), (1, 2), (2, 3), (3, 0)];
    let inst = cycle(energy.clone());
    let alternating = from_scratch(&energy, &edges, &[0, 1, 0, 1]);
    assert_eq!(alternating, 0);
    let s = solve(&inst, 4, 7, 1000).unwrap();
    assert_eq!(s.assignment, vec![0, 0, 1, 1]);
    assert_eq!(s.total_energy, -2);
    assert!(s.total_energy < alternating);
    assert_eq!(counts(&s.assignment, 2), vec![2, 2]);
}

#[test]
fn four_cycle_with_mutual_affinity_alternates() {
    let energy = vec![vec![0, -1], vec![-1, 0]];
    let edges = [(0, 1), (1, 2), (2, 3), (3, 0)];
    let inst = cycle(energy.clone());
    let s = solve(&inst, 4, 7, 1000).unwrap();
    assert_eq!(s.total_energy, -4);
    assert_eq!(s.assignment, vec![0, 1, 0, 1]);
    assert_eq!(s.total_energy, from_scratch(&energy, &edges, &s.assignment));
}

#[test]
fn search_improves_on_the_construction() {
    let energy = vec![vec![1, 2], vec![2, 1]];
    let edges = vec![(0, 1), (1, 2), (2, 3)];
    let inst = ProblemInstance::new(4, vec![2, 2], energy.clone(), edges.clone()).unwrap();
    assert_eq!(construct(&inst).unwrap().total_energy(), 6);
    let s = solve(&inst, 3, 1, 1000).unwrap();
    assert_eq!(s.total_energy, 4);
    assert_eq!(counts(&s.assignment, 2), vec![2, 2]);
    assert_eq!(s.total_energy, from_scratch(&energy, &edges, &s.assignment));
}

#[test]
fn solve_is_deterministic_under_a_fixed_seed() {
    let energy = vec![vec![3, -2, 1], vec![0, 4, -5], vec![2, 2, 2]];
    let edges = vec![(0, 1), (1, 2), (2, 3), (3, 4), (4, 5), (5, 6), (6, 0), (2, 5), (1, 1), (3, 0)];
    let inst = ProblemInstance::new(7, vec![3, 2, 2], energy.clone(), edges.clone()).unwrap();
    let first = solve(&inst, 5, 12345, 300).unwrap();
    let second = solve(&inst, 5, 12345, 300).unwrap();
    assert_eq!(first, second);
    assert_eq!(counts(&first.assignment, 3), vec![3, 2, 2]);
    assert_eq!(first.total_energy, from_scratch(&energy, &edges, &first.assignment));
    assert!(first.total_energy <= construct(&inst).unwrap().total_energy());
    assert_ne!(first.status, SearchStatus::Running);
}

#[test]
fn no_nodes_converges_to_the_empty_assignment() {
    let inst = ProblemInstance::new(0, vec![0, 0], vec![vec![1, 2], vec![3, 4]], vec![]).unwrap();
    let s = solve(&inst, 3, 9, 100).unwrap();
    assert_eq!(s, Solution { assignment: vec![], total_energy: 0, status: SearchStatus::Converged });
}

#[test]
fn single_type_needs_no_search() {
    let inst = ProblemInstance::new(3, vec![3], vec![vec![-4]], vec![(0, 1), (1, 2), (2, 2)]).unwrap();
    let s = solve(&inst, 3, 9, 100).unwrap();
    assert_eq!(s, Solution { assignment: vec![0, 0, 0], total_energy: -12, status: SearchStatus::Converged });
}

#[test]
fn no_trial_returns_the_construction() {
    let inst = ProblemInstance::new(4, vec![2, 2], vec![vec![1, 2], vec![2, 1]], vec![(0, 1), (1, 2), (2, 3)]).unwrap();
    let s = solve(&inst, 0, 1, 1000).unwrap();
    assert_eq!(s, Solution { assignment: vec![0, 1, 0, 1], total_energy: 6, status: SearchStatus::Stopped });
}

#[test]
fn exhausted_budget_reports_stopped() {
    let inst = ProblemInstance::new(4, vec![2, 2], vec![vec![1, 2], vec![2, 1]], vec![(0, 1), (1, 2), (2, 3)]).unwrap();
    let s = solve(&inst, 2, 1, 3).unwrap();
    assert_eq!(s.status, SearchStatus::Stopped);
    assert!(s.total_energy <= 6);
}

#[test]
fn standard_settings_follow_the_instance() {
    let inst = ProblemInstance::new(3, vec![1, 2], vec![vec![5, -9], vec![i32::MIN, 7]], vec![]).unwrap();
    assert_eq!(energy_scale_of(&inst), 2_147_483_648);
    let c = standard_config_of(&inst, 50);
    assert_eq!(c.patience, 36);
    assert_eq!(c.step_budget, 50);
    assert_eq!(c.initial_temperature, 2_147_483_648);
    let none = ProblemInstance::new(0, vec![], vec![], vec![]).unwrap();
    assert_eq!(energy_scale_of(&none), 0);
    assert_eq!(standard_config_of(&none, 1).patience, 0);
}

#[test]
fn trial_seeds_differ_by_index() {
    assert_eq!(trial_seed_of(5, 0), 5);
    assert_eq!(trial_seed_of(5, 3), 15755400384260043844);
}

#[test]
fn earlier_result_wins_a_tie() {
    let a = Solution { assignment: vec![0], total_energy: 3, status: SearchStatus::Converged };
    let b = Solution { assignment: vec![1], total_energy: 3, status: SearchStatus::Stopped };
    let c = Solution { assignment: vec![1], total_energy: 2, status: SearchStatus::Stopped };
    assert!(!improves(&a, &b));
    assert!(improves(&a, &c));
    assert!(!improves(&c, &a));
}

#[test]
fn trial_starts_from_a_copy() {
    let inst = ProblemInstance::new(4, vec![2, 2], vec![vec![1, 2], vec![2, 1]], vec![(0, 1), (1, 2), (2, 3)]).unwrap();
    let start = construct(&inst).unwrap();
    let config = standard_config_of(&inst, 500);
    let s = run_trial(&inst, &start, 1, 0, config);
    assert_eq!(start.types(), vec![0, 1, 0, 1]);
    assert_eq!(start.total_energy(), 6);
    assert!(s.total_energy <= 6);
    assert_eq!(s, run_trial(&inst, &start, 1, 0, config));
}

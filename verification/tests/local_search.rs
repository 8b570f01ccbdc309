use atom_assign::assignment::Assignment;
use atom_assign::construct::construct;
use atom_assign::problem::ProblemInstance;
use atom_assign::search::{LocalSearch, SearchConfig, SearchStatus};

fn path() -> ProblemInstance {
    ProblemInstance::new(4, vec![2, 2], vec![vec![1, 2], vec![2, 1]], vec![(0, 1), (1, 2), (2, 3)]).unwrap()
}

fn config(patience: u64, step_budget: u64, initial_temperature: u32) -> SearchConfig {
    SearchConfig { patience, step_budget, initial_temperature }
}

fn counts(types: &[usize], k: usize) -> Vec<u32> {
    let mut c = vec![0u32; k];
    for t in types {
        c[*t] += 1;
    }
    c
}

#[test]
fn search_starts_at_the_given_assignment() {
    let inst = path();
    let start = construct(&inst).unwrap();
    let search = LocalSearch::new(&inst, start, 1, config(10, 10, 0));
    assert_eq!(search.status(), SearchStatus::Running);
    assert_eq!(search.steps(), 0);
    assert_eq!(search.best(), vec![0, 1, 0, 1]);
    assert_eq!(search.best_energy(), 6);
    assert_eq!(search.current_energy(), 6);
}

#[test]
fn zero_patience_converges_at_once() {
    let inst = path();
    let start = construct(&inst).unwrap();
    let search = LocalSearch::new(&inst, start, 1, config(0, 10, 0));
    assert_eq!(search.status(), SearchStatus::Converged);
}

#[test]
fn zero_budget_stops_at_once() {
    let inst = path();
    let start = construct(&inst).unwrap();
    let mut search = LocalSearch::new(&inst, start, 1, config(5, 0, 0));
    assert_eq!(search.status(), SearchStatus::Stopped);
    search.run(&inst);
    assert_eq!(search.status(), SearchStatus::Stopped);
    assert_eq!(search.steps(), 0);
}

#[test]
fn uniform_assignment_converges_at_once() {
    let inst = ProblemInstance::new(3, vec![3, 0], vec![vec![1, 2], vec![2, 1]], vec![(0, 1), (1, 2)]).unwrap();
    let start = construct(&inst).unwrap();
    let search = LocalSearch::new(&inst, start, 1, config(5, 5, 9));
    assert_eq!(search.status(), SearchStatus::Converged);
    assert_eq!(search.best(), vec![0, 0, 0]);
}

#[test]
fn cancel_stops_a_running_search() {
    let inst = path();
    let start = construct(&inst).unwrap();
    let mut search = LocalSearch::new(&inst, start, 1, config(10, 10, 0));
    search.step(&inst, true);
    assert_eq!(search.status(), SearchStatus::Stopped);
    assert_eq!(search.steps(), 0);
    assert_eq!(search.best(), vec![0, 1, 0, 1]);
    search.step(&inst, false);
    assert_eq!(search.status(), SearchStatus::Stopped);
    assert_eq!(search.steps(), 0);
}

#[test]
fn budget_bounds_the_number_of_steps() {
    let inst = path();
    let start = construct(&inst).unwrap();
    let mut search = LocalSearch::new(&inst, start, 3, config(u64::MAX, 25, 100));
    search.run(&inst);
    assert_eq!(search.status(), SearchStatus::Stopped);
    assert_eq!(search.steps(), 25);
}

#[test]
fn patience_bounds_the_steps_without_improvement() {
    let inst = ProblemInstance::new(2, vec![1, 1], vec![vec![0, 0], vec![0, 0]], vec![(0, 1)]).unwrap();
    let start = construct(&inst).unwrap();
    let mut search = LocalSearch::new(&inst, start, 3, config(7, 1000, 0));
    search.run(&inst);
    assert_eq!(search.status(), SearchStatus::Converged);
    assert_eq!(search.steps(), 7);
}

#[test]
fn best_energy_never_rises() {
    let energy = vec![vec![3, -2, 1], vec![0, 4, -5], vec![2, 2, 2]];
    let edges = vec![(0, 1), (1, 2), (2, 3), (3, 4), (4, 5), (5, 6), (6, 0), (2, 5), (1, 1), (3, 0)];
    let inst = ProblemInstance::new(7, vec![3, 2, 2], energy, edges).unwrap();
    let start = construct(&inst).unwrap();
    let mut search = LocalSearch::new(&inst, start, 11, config(u64::MAX, 400, 50));
    let mut last = search.best_energy();
    let mut worsened = false;
    while search.status() == SearchStatus::Running {
        let before = search.current_energy();
        search.step(&inst, false);
        assert!(search.best_energy() <= last);
        assert!(search.best_energy() <= search.current_energy());
        assert_eq!(search.current().evaluate(&inst), search.current_energy());
        assert_eq!(counts(&search.current().types(), 3), vec![3, 2, 2]);
        worsened = worsened || search.current_energy() > before;
        last = search.best_energy();
    }
    assert_eq!(search.steps(), 400);
    assert!(worsened);
    let best = search.best();
    assert_eq!(counts(&best, 3), vec![3, 2, 2]);
    let mut check = Assignment::empty(&inst);
    for (node, ty) in best.iter().enumerate() {
        check.place(&inst, node, *ty);
    }
    assert_eq!(check.total_energy(), search.best_energy());
}

#[test]
fn cold_search_only_descends() {
    let inst = path();
    let start = construct(&inst).unwrap();
    let mut search = LocalSearch::new(&inst, start, 5, config(200, 10_000, 0));
    let mut last = search.current_energy();
    while search.status() == SearchStatus::Running {
        search.step(&inst, false);
        assert!(search.current_energy() <= last);
        last = search.current_energy();
    }
    assert_eq!(search.status(), SearchStatus::Converged);
    assert_eq!(search.best_energy(), 4);
    assert_eq!(search.current_energy(), 4);
}

#[test]
fn same_seed_same_walk() {
    let inst = path();
    let mut a = LocalSearch::new(&inst, construct(&inst).unwrap(), 77, config(50, 300, 3));
    let mut b = LocalSearch::new(&inst, construct(&inst).unwrap(), 77, config(50, 300, 3));
    while a.status() == SearchStatus::Running {
        a.step(&inst, false);
        b.step(&inst, false);
        assert_eq!(a.current().types(), b.current().types());
        assert_eq!(a.status(), b.status());
    }
    assert_eq!(a.best(), b.best());
    assert_eq!(a.steps(), b.steps());
}

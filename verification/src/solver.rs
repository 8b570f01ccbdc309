//! The solver driver: independent trials of construction and local search,
//! each with a seed of its own, of which the best result is kept.
use vstd::prelude::*;
use crate::assignment::{lemma_complete_assignment, Assignment};
use crate::construct::{construct, constructed, InfeasibleInstance};
use crate::energy::{lemma_energy_of_none, total_energy};
use crate::problem::{Problem, ProblemInstance};
use crate::search::{can_move, is_feasible, lemma_single_choice, LocalSearch, SearchConfig, SearchStatus, SearchView};

verus! {

/// What a solve returns.
#[derive(Debug, Clone, PartialEq, Eq)]
pub struct Solution {
    /// The atom type of each node.
    pub assignment: Vec<usize>,
    /// The total energy of the assignment.
    pub total_energy: i128,
    /// How the search that found the assignment ended.
    pub status: SearchStatus,
}

/// The mathematical content of a solution.
pub struct SolutionView {
    /// The atom type of each node.
    pub assignment: Seq<usize>,
    /// The total energy of the assignment.
    pub total_energy: int,
    /// How the search that found the assignment ended.
    pub status: SearchStatus,
}

impl View for Solution {
    type V = SolutionView;

    open spec fn view(&self) -> SolutionView {
        SolutionView {
            assignment: self.assignment@,
            total_energy: self.total_energy as int,
            status: self.status,
        }
    }
}

/// The magnitude of an energy.
pub open spec fn magnitude(e: i32) -> nat {
    if e < 0 {
        (-e) as nat
    } else {
        e as nat
    }
}

/// `m` is the largest magnitude of an entry of the energy matrix, or zero when the matrix is empty.
pub open spec fn is_energy_scale(p: Problem, m: nat) -> bool {
    &&& forall|i: int, j: int|
        0 <= i < p.quota.len() && 0 <= j < p.quota.len() ==> magnitude(#[trigger] p.energy[i][j]) <= m
    &&& (m == 0 || exists|i: int, j: int|
        0 <= i < p.quota.len() && 0 <= j < p.quota.len() && magnitude(#[trigger] p.energy[i][j]) == m)
}

/// The largest magnitude of an entry of the energy matrix.
pub open spec fn energy_scale(p: Problem) -> nat {
    choose|m: nat| is_energy_scale(p, m)
}

/// The patience of the standard settings: four times the square of the node count, at most `u64::MAX`.
pub open spec fn standard_patience(node_count: nat) -> u64 {
    if node_count * node_count > u64::MAX / 4 {
        u64::MAX
    } else {
        (node_count * node_count * 4) as u64
    }
}

/// The standard settings for `p` under a budget of `time_budget` steps: the
/// search starts at a temperature of the scale of the energies.
pub open spec fn standard_config(p: Problem, time_budget: u64) -> SearchConfig {
    SearchConfig {
        patience: standard_patience(p.node_count),
        step_budget: time_budget,
        initial_temperature: energy_scale(p) as u32,
    }
}

/// The seed of the trial `index` of a solve seeded with `seed`.
pub open spec fn trial_seed(seed: u64, index: usize) -> u64 {
    seed.wrapping_add((index as u64).wrapping_mul(0x9e37_79b9_7f4a_7c15))
}

/// What a finished search hands back: the best assignment, its energy, and where the search stood.
pub open spec fn outcome(s: SearchView) -> SolutionView {
    SolutionView { assignment: s.best, total_energy: s.best_energy, status: s.status }
}

/// The result of the trial `index`: a search from the constructed assignment, run to its end.
pub open spec fn trial(p: Problem, seed: u64, index: usize, config: SearchConfig) -> SolutionView {
    outcome(SearchView::initial(constructed(p), trial_seed(seed, index), config).run(p))
}

/// The better of two solutions: the later one only if its energy is strictly lower.
pub open spec fn better(a: SolutionView, b: SolutionView) -> SolutionView {
    if b.total_energy < a.total_energy {
        b
    } else {
        a
    }
}

/// The best result of the first `trials` trials, the earliest among equals.
pub open spec fn best_of_trials(p: Problem, seed: u64, config: SearchConfig, trials: usize) -> SolutionView
    decreases trials,
{
    if trials <= 1 {
        trial(p, seed, 0, config)
    } else {
        better(best_of_trials(p, seed, config, (trials - 1) as usize), trial(p, seed, (trials - 1) as usize, config))
    }
}

/// What `solve` returns. Without a trial it is what a search without a step
/// leaves of the constructed assignment.
pub open spec fn solved(p: Problem, trial_count: usize, seed: u64, time_budget: u64) -> SolutionView {
    if trial_count == 0 {
        trial(p, seed, 0, standard_config(p, 0))
    } else {
        best_of_trials(p, seed, standard_config(p, time_budget), trial_count)
    }
}

/// There is one largest magnitude.
pub proof fn lemma_energy_scale_unique(p: Problem, m1: nat, m2: nat)
    requires
        is_energy_scale(p, m1),
        is_energy_scale(p, m2),
    ensures
        m1 == m2,
{
}

/// The largest magnitude of an entry of the energy matrix.
pub fn energy_scale_of(inst: &ProblemInstance) -> (m: u32)
    requires
        inst.wf(),
    ensures
        m == energy_scale(inst@),
        is_energy_scale(inst@, m as nat),
{
    let k: usize = inst.atom_count();
    let mut m: u32 = 0;
    let mut i: usize = 0;
    while i < k
        invariant
            inst.wf(),
            k == inst@.quota.len(),
            i <= k,
            forall|a: int, b: int| 0 <= a < i && 0 <= b < k ==> magnitude(#[trigger] inst@.energy[a][b]) <= m,
            m == 0 || exists|a: int, b: int|
                0 <= a < k && 0 <= b < k && magnitude(#[trigger] inst@.energy[a][b]) == m,
        decreases k - i,
    {
        let mut j: usize = 0;
        while j < k
            invariant
                inst.wf(),
                k == inst@.quota.len(),
                i < k,
                j <= k,
                forall|a: int, b: int| 0 <= a < i && 0 <= b < k ==> magnitude(#[trigger] inst@.energy[a][b]) <= m,
                forall|b: int| 0 <= b < j ==> magnitude(#[trigger] inst@.energy[i as int][b]) <= m,
                m == 0 || exists|a: int, b: int|
                    0 <= a < k && 0 <= b < k && magnitude(#[trigger] inst@.energy[a][b]) == m,
            decreases k - j,
        {
            let e: i32 = inst.energy(i, j);
            let size: u32 = if e < 0 {
                (0 - e as i64) as u32
            } else {
                e as u32
            };
            assert(size == magnitude(inst@.energy[i as int][j as int]));
            if size > m {
                m = size;
            }
            j = j + 1;
        }
        i = i + 1;
    }
    proof {
        assert(is_energy_scale(inst@, m as nat));
        lemma_energy_scale_unique(inst@, m as nat, energy_scale(inst@));
    }
    m
}

/// The standard settings for `inst` under a budget of `time_budget` steps.
pub fn standard_config_of(inst: &ProblemInstance, time_budget: u64) -> (config: SearchConfig)
    requires
        inst.wf(),
    ensures
        config == standard_config(inst@, time_budget),
{
    let n: usize = inst.node_count();
    assert(n * n <= 0xffff_ffff_ffff_ffff * 0xffff_ffff_ffff_ffff) by (nonlinear_arith)
        requires
            0 <= n <= 0xffff_ffff_ffff_ffff,
    ;
    let square: u128 = (n as u128) * (n as u128);
    let patience: u64 = if square > (u64::MAX / 4) as u128 {
        u64::MAX
    } else {
        (square * 4) as u64
    };
    SearchConfig { patience, step_budget: time_budget, initial_temperature: energy_scale_of(inst) }
}

/// The seed of the trial `index`.
pub fn trial_seed_of(seed: u64, index: usize) -> (s: u64)
    ensures
        s == trial_seed(seed, index),
{
    seed.wrapping_add((index as u64).wrapping_mul(0x9e37_79b9_7f4a_7c15))
}

/// Runs the trial `index`: a local search from a copy of `start`, to its end.
///
/// The result is feasible, its energy is the energy of its assignment and
/// does not exceed that of `start`, and the search has ended. Where no
/// exchange can change `start`, the search converges without a step.
pub fn run_trial(inst: &ProblemInstance, start: &Assignment, seed: u64, index: usize, config: SearchConfig) -> (r:
    Solution)
    requires
        inst.wf(),
        start.wf(inst),
        start@.complete(),
    ensures
        r@ == outcome(SearchView::initial(start@, trial_seed(seed, index), config).run(inst@)),
        is_feasible(inst@, r@.assignment),
        r@.total_energy == total_energy(inst@, r@.assignment),
        r@.total_energy <= start@.energy,
        r@.status != SearchStatus::Running,
        !can_move(start@.slots) ==> r@.status == SearchStatus::Converged && r@.assignment == start@.types(),
{
    let mut search = LocalSearch::new(inst, start.duplicate(), trial_seed_of(seed, index), config);
    search.run(inst);
    Solution { assignment: search.best(), total_energy: search.best_energy(), status: search.status() }
}

/// Whether `b` is to replace `a`: only a strictly lower energy replaces an earlier result.
pub fn improves(a: &Solution, b: &Solution) -> (r: bool)
    ensures
        r == (b@.total_energy < a@.total_energy),
        better(a@, b@) == if r {
            b@
        } else {
            a@
        },
{
    b.total_energy < a.total_energy
}

/// Solves `inst`: builds an assignment with the constructive heuristic, runs
/// `trial_count` local searches from it, each seeded from `seed` and its
/// index and each limited to `time_budget` steps, and returns the best
/// assignment that any of them saw, the earliest among equals.
///
/// The result is a function of the arguments alone: the same instance, trial
/// count, seed and budget give the same solution. Its assignment gives every
/// node a type and every type to as many nodes as its quota says, and its
/// energy is the sum of the energies of the edges under that assignment. A
/// graph without nodes gives the empty assignment, and a single atom type
/// gives that type to every node; both converge without a step.
///
/// On a valid instance the quotas cover the nodes, so the result is always `Ok`.
pub fn solve(inst: &ProblemInstance, trial_count: usize, seed: u64, time_budget: u64) -> (r: Result<
    Solution,
    InfeasibleInstance,
>)
    requires
        inst.wf(),
    ensures
        r matches Ok(s) && {
            &&& s@ == solved(inst@, trial_count, seed, time_budget)
            &&& is_feasible(inst@, s@.assignment)
            &&& s@.total_energy == total_energy(inst@, s@.assignment)
            &&& s@.total_energy <= constructed(inst@).energy
            &&& s@.status != SearchStatus::Running
            &&& inst@.node_count == 0 ==> s@.assignment.len() == 0 && s@.total_energy == 0 && s@.status
                == SearchStatus::Converged
            &&& inst@.quota.len() == 1 ==> s@.status == SearchStatus::Converged && forall|i: int|
                0 <= i < s@.assignment.len() ==> s@.assignment[i] == 0
        },
{
    let start = match construct(inst) {
        Ok(a) => a,
        Err(e) => {
            return Err(e);
        },
    };
    proof {
        lemma_complete_assignment(start@, inst@);
        if inst@.node_count == 0 {
            lemma_single_choice(start@, inst@);
            lemma_energy_of_none(inst@, start@.types());
        }
        if inst@.quota.len() == 1 {
            lemma_single_choice(start@, inst@);
        }
    }
    if trial_count == 0 {
        return Ok(run_trial(inst, &start, seed, 0, standard_config_of(inst, 0)));
    }
    let config = standard_config_of(inst, time_budget);
    let mut best = run_trial(inst, &start, seed, 0, config);
    let mut index: usize = 1;
    while index < trial_count
        invariant
            inst.wf(),
            start.wf(inst),
            start@.complete(),
            start@ == constructed(inst@),
            1 <= index <= trial_count,
            best@ == best_of_trials(inst@, seed, config, index),
            is_feasible(inst@, best@.assignment),
            best@.total_energy == total_energy(inst@, best@.assignment),
            best@.total_energy <= start@.energy,
            best@.status != SearchStatus::Running,
            !can_move(start@.slots) ==> best@.status == SearchStatus::Converged && best@.assignment
                == start@.types(),
        decreases trial_count - index,
    {
        let next = run_trial(inst, &start, seed, index, config);
        if improves(&best, &next) {
            best = next;
        }
        index = index + 1;
    }
    Ok(best)
}

} // verus!

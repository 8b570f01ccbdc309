//! The local search: a state machine that exchanges the types of two nodes at
//! a time, keeps every exchange that lowers the energy, keeps a worsening one
//! with a chance that falls as the run goes on, and remembers the best
//! assignment that it has seen.
use vstd::prelude::*;
use crate::assignment::{lemma_complete_assignment, lemma_swap_keeps_wf, Assignment, AssignmentView};
use crate::counting::count_of;
use crate::energy::{as_slots, slot_fits, total_energy, Slots};
use crate::problem::{Problem, ProblemInstance};
use crate::rng::{advance, next_state, output_bits, seeded, wide_value, Rng};

verus! {

/// Where a search stands.
#[derive(Debug, Clone, Copy, PartialEq, Eq, Structural)]
pub enum SearchStatus {
    /// The search may take another step.
    Running,
    /// As many steps in a row as the patience allows brought no improvement.
    Converged,
    /// The search was cancelled or used up its step budget.
    Stopped,
}

/// The settings of a search.
#[derive(Debug, Clone, Copy, PartialEq, Eq, Structural)]
pub struct SearchConfig {
    /// The number of steps in a row without improvement after which the search has converged.
    pub patience: u64,
    /// The number of steps after which the search is stopped.
    pub step_budget: u64,
    /// The temperature at the first step; it falls linearly to zero over the step budget.
    pub initial_temperature: u32,
}

/// The mathematical content of a search.
pub struct SearchView {
    /// The assignment that the search is at.
    pub current: AssignmentView,
    /// The best assignment seen so far.
    pub best: Seq<usize>,
    /// The energy of the best assignment seen so far.
    pub best_energy: int,
    /// The state of the generator.
    pub rng: u64,
    /// The number of steps taken.
    pub steps: u64,
    /// The number of steps in a row that brought no improvement.
    pub stall: u64,
    /// Where the search stands.
    pub status: SearchStatus,
    /// The settings.
    pub config: SearchConfig,
}

/// The complete assignment `types` gives every node an atom type of the
/// problem and every type to exactly as many nodes as its quota says.
pub open spec fn is_feasible(p: Problem, types: Seq<usize>) -> bool {
    &&& types.len() == p.node_count
    &&& forall|i: int| 0 <= i < types.len() ==> (#[trigger] types[i]) < p.quota.len()
    &&& forall|ty: usize| 0 <= ty < p.quota.len() ==> (#[trigger] count_of(as_slots(types), ty)) == p.quota[ty as int]
}

/// Some node differs from node 0 in what it holds: an exchange that changes the assignment exists.
pub open spec fn can_move(slots: Slots) -> bool {
    exists|u: int| 0 <= u < slots.len() && #[trigger] slots[u] != slots[0]
}

/// The temperature after `steps` steps: the initial temperature scaled by the
/// part of the step budget that is left.
pub open spec fn temperature(config: SearchConfig, steps: u64) -> int {
    if config.step_budget == 0 {
        0
    } else {
        (config.initial_temperature * (config.step_budget - steps)) / (config.step_budget as int)
    }
}

/// Whether an exchange that does not lower the energy is kept: the chance
/// `draw`, uniform below 2^32, must fall below the share
/// `temperature / (temperature + delta + 1)` of that range.
pub open spec fn accepts(draw: int, temperature: int, delta: int) -> bool {
    draw * (temperature + delta + 1) < temperature * 0x1_0000_0000
}

/// What one step draws from the generator.
pub struct Draw {
    /// The first node of the candidate exchange.
    pub u: int,
    /// The second node of the candidate exchange.
    pub v: int,
    /// The chance against which a worsening exchange is accepted.
    pub chance: int,
    /// The state of the generator after the draws.
    pub rng: u64,
}

/// The draws of one step from a generator in state `rng`, for a graph of `n` nodes.
pub open spec fn draw(rng: u64, n: nat) -> Draw {
    let after_u = advance(rng, 2);
    let after_v = advance(after_u, 2);
    let last = next_state(after_v);
    Draw {
        u: (wide_value(rng) % (n as u64)) as int,
        v: (wide_value(after_u) % (n as u64)) as int,
        chance: output_bits(last) as int,
        rng: last,
    }
}

impl SearchView {
    /// The search is consistent with the problem `p`: the current assignment is
    /// complete and consistent, the best assignment is feasible and has the
    /// best energy, which the current energy does not undercut, and a running
    /// search has nodes to pick and steps and patience left.
    pub open spec fn wf(self, p: Problem) -> bool {
        &&& self.current.wf(p)
        &&& self.current.complete()
        &&& is_feasible(p, self.best)
        &&& self.best_energy == total_energy(p, self.best)
        &&& self.best_energy <= self.current.energy
        &&& self.status is Running ==> {
            &&& p.node_count > 0
            &&& self.stall < self.config.patience
            &&& self.steps < self.config.step_budget
        }
    }

    /// The search that starts at `start` with a generator seeded with `seed`.
    /// It has converged at once when no exchange can change the assignment or
    /// when the patience is zero, and is stopped at once when the budget is zero.
    pub open spec fn initial(start: AssignmentView, seed: u64, config: SearchConfig) -> SearchView {
        SearchView {
            current: start,
            best: start.types(),
            best_energy: start.energy,
            rng: seeded(seed),
            steps: 0,
            stall: 0,
            status: if config.patience == 0 || !can_move(start.slots) {
                SearchStatus::Converged
            } else if config.step_budget == 0 {
                SearchStatus::Stopped
            } else {
                SearchStatus::Running
            },
            config,
        }
    }

    /// The search after one step. A search that is not running stays as it is;
    /// a cancelled one is stopped. Otherwise two nodes are drawn; if they
    /// differ in type, their exchange is kept when it lowers the energy, or
    /// when the chance drawn accepts it at the current temperature. A step
    /// that lowers the energy resets the count of steps without improvement,
    /// any other step adds to it.
    pub open spec fn step(self, p: Problem, cancel: bool) -> SearchView {
        if self.status != SearchStatus::Running {
            self
        } else if cancel {
            SearchView {
                current: self.current,
                best: self.best,
                best_energy: self.best_energy,
                rng: self.rng,
                steps: self.steps,
                stall: self.stall,
                status: SearchStatus::Stopped,
                config: self.config,
            }
        } else {
            let d = draw(self.rng, p.node_count);
            let differ = self.current.slots[d.u] != self.current.slots[d.v];
            let delta = self.current.swap_delta(p, d.u, d.v);
            let improving = differ && delta < 0;
            let kept = differ && (delta < 0 || accepts(d.chance, temperature(self.config, self.steps), delta));
            let current = if kept {
                self.current.swap(p, d.u, d.v)
            } else {
                self.current
            };
            let better = current.energy < self.best_energy;
            let stall = if improving {
                0
            } else {
                self.stall + 1
            };
            let steps = self.steps + 1;
            SearchView {
                current,
                best: if better {
                    current.types()
                } else {
                    self.best
                },
                best_energy: if better {
                    current.energy
                } else {
                    self.best_energy
                },
                rng: d.rng,
                steps: steps as u64,
                stall: stall as u64,
                status: if stall >= self.config.patience {
                    SearchStatus::Converged
                } else if steps >= self.config.step_budget {
                    SearchStatus::Stopped
                } else {
                    SearchStatus::Running
                },
                config: self.config,
            }
        }
    }

    /// The search after it has run, uncancelled, until it is no longer running.
    pub open spec fn run(self, p: Problem) -> SearchView
        decreases self.config.step_budget - self.steps,
    {
        if self.status == SearchStatus::Running && self.steps < self.config.step_budget {
            self.step(p, false).run(p)
        } else {
            self
        }
    }
}

/// A step keeps a search consistent and never raises the best energy.
pub proof fn lemma_step(s: SearchView, p: Problem, cancel: bool)
    requires
        p.valid(),
        p.node_count <= usize::MAX,
        s.wf(p),
    ensures
        s.step(p, cancel).wf(p),
        s.step(p, cancel).best_energy <= s.best_energy,
        s.step(p, cancel).config == s.config,
        s.step(p, cancel).steps >= s.steps,
{
    if s.status == SearchStatus::Running && !cancel {
        let d = draw(s.rng, p.node_count);
        lemma_swap_keeps_wf(s.current, p, d.u, d.v);
        let after = s.step(p, cancel);
        lemma_complete_assignment(after.current, p);
    }
}

/// A run keeps a search consistent, never raises the best energy, and ends
/// converged or stopped.
pub proof fn lemma_run(s: SearchView, p: Problem)
    requires
        p.valid(),
        p.node_count <= usize::MAX,
        s.wf(p),
    ensures
        s.run(p).wf(p),
        s.run(p).best_energy <= s.best_energy,
        s.run(p).status != SearchStatus::Running,
    decreases s.config.step_budget - s.steps,
{
    if s.status == SearchStatus::Running && s.steps < s.config.step_budget {
        lemma_step(s, p, false);
        lemma_run(s.step(p, false), p);
    }
}

/// The temperature never rises as the steps go by, and ends at zero.
pub proof fn lemma_temperature_falls(config: SearchConfig, earlier: u64, later: u64)
    requires
        earlier <= later <= config.step_budget,
    ensures
        0 <= temperature(config, later) <= temperature(config, earlier) <= config.initial_temperature,
        temperature(config, config.step_budget) == 0,
{
    if config.step_budget > 0 {
        let t = config.initial_temperature as int;
        let b = config.step_budget as int;
        assert(0 <= t * (b - later) <= t * (b - earlier) <= t * b) by (nonlinear_arith)
            requires
                0 <= t,
                0 <= earlier <= later <= b,
        ;
        vstd::arithmetic::div_mod::lemma_div_is_ordered(t * (b - later), t * (b - earlier), b);
        vstd::arithmetic::div_mod::lemma_div_is_ordered(t * (b - earlier), t * b, b);
        vstd::arithmetic::div_mod::lemma_div_is_ordered(0, t * (b - later), b);
        vstd::arithmetic::div_mod::lemma_div_multiples_vanish(t, b);
        assert(t * b == b * t) by (nonlinear_arith);
        assert(t * (b - b) == 0) by (nonlinear_arith);
    }
}

/// A worsening exchange that is kept at one temperature is kept, on the same
/// draw, at every higher one, and is never kept at temperature zero: the
/// chance of keeping it falls with the temperature. At one temperature, an
/// exchange that is kept would also be kept if it raised the energy by less.
pub proof fn lemma_acceptance_cools(draw: int, cooler: int, warmer: int, delta: int, smaller: int)
    requires
        0 <= draw < 0x1_0000_0000,
        0 <= cooler <= warmer,
        0 <= smaller <= delta,
    ensures
        accepts(draw, cooler, delta) ==> accepts(draw, warmer, delta),
        accepts(draw, cooler, delta) ==> accepts(draw, cooler, smaller),
        !accepts(draw, 0, delta),
{
    assert(draw * (warmer + delta + 1) == draw * (cooler + delta + 1) + draw * (warmer - cooler)) by (nonlinear_arith);
    assert(draw * (warmer - cooler) <= 0x1_0000_0000 * (warmer - cooler)) by (nonlinear_arith)
        requires
            0 <= draw < 0x1_0000_0000,
            0 <= warmer - cooler,
    ;
    assert(draw * (cooler + smaller + 1) <= draw * (cooler + delta + 1)) by (nonlinear_arith)
        requires
            0 <= draw,
            smaller <= delta,
    ;
    assert(draw * (0 + delta + 1) >= 0) by (nonlinear_arith)
        requires
            0 <= draw,
            0 <= delta,
    ;
}

/// Where no exchange can change the assignment, the search has converged
/// before its first step, and a run leaves it as it started.
pub proof fn lemma_nothing_to_move(start: AssignmentView, seed: u64, config: SearchConfig, p: Problem)
    requires
        !can_move(start.slots),
    ensures
        SearchView::initial(start, seed, config).status == SearchStatus::Converged,
        SearchView::initial(start, seed, config).run(p) == SearchView::initial(start, seed, config),
        SearchView::initial(start, seed, config).steps == 0,
{
}

/// On a graph without nodes, and with a single atom type, a complete
/// assignment is the only feasible one and no exchange can change it.
pub proof fn lemma_single_choice(a: AssignmentView, p: Problem)
    requires
        a.wf(p),
        a.complete(),
        p.node_count == 0 || p.quota.len() == 1,
    ensures
        !can_move(a.slots),
        forall|i: int| 0 <= i < a.slots.len() ==> (#[trigger] a.slots[i]) == Some(0usize),
{
    assert forall|i: int| 0 <= i < a.slots.len() implies (#[trigger] a.slots[i]) == Some(0usize) by {
        assert(slot_fits(p, a.slots[i]));
    }
}

/// The temperature after `steps` steps.
fn temperature_at(config: &SearchConfig, steps: u64) -> (t: u32)
    requires
        steps <= config.step_budget,
    ensures
        t == temperature(*config, steps),
{
    if config.step_budget == 0 {
        0
    } else {
        let left: u64 = config.step_budget - steps;
        assert(config.initial_temperature * left <= 0xffff_ffff * 0xffff_ffff_ffff_ffff) by (nonlinear_arith)
            requires
                config.initial_temperature <= 0xffff_ffff,
                left <= 0xffff_ffff_ffff_ffff,
        ;
        let scaled: u128 = (config.initial_temperature as u128) * (left as u128);
        assert(scaled / (config.step_budget as u128) <= config.initial_temperature) by (nonlinear_arith)
            requires
                scaled == config.initial_temperature * left,
                0 <= left <= config.step_budget,
                config.step_budget > 0,
        ;
        (scaled / (config.step_budget as u128)) as u32
    }
}

/// Whether an exchange that raises the energy by `delta` is kept.
fn accept(draw: u32, temperature: u32, delta: i128) -> (r: bool)
    requires
        delta >= 0,
    ensures
        r == accepts(draw as int, temperature as int, delta as int),
{
    if temperature == 0 {
        assert(draw * (0 + delta + 1) >= 0) by (nonlinear_arith)
            requires
                draw >= 0,
                delta >= 0,
        ;
        false
    } else if draw == 0 {
        true
    } else if delta >= 0x1_0000_0000_0000_0000 {
        assert(draw * (temperature + delta + 1) >= temperature * 0x1_0000_0000) by (nonlinear_arith)
            requires
                draw >= 1,
                delta >= 0x1_0000_0000_0000_0000,
                0 <= temperature <= 0xffff_ffff,
        ;
        false
    } else {
        let span: u128 = temperature as u128 + delta as u128 + 1;
        assert(draw * span <= 0xffff_ffff * 0x2_0000_0000_0000_0000) by (nonlinear_arith)
            requires
                0 <= draw <= 0xffff_ffff,
                0 <= span <= 0x2_0000_0000_0000_0000,
        ;
        (draw as u128) * span < (temperature as u128) * 0x1_0000_0000
    }
}

/// A local search over one assignment.
#[derive(Debug)]
pub struct LocalSearch {
    current: Assignment,
    snapshot: Vec<usize>,
    at_best: bool,
    best_energy: i128,
    rng: Rng,
    steps: u64,
    stall: u64,
    status: SearchStatus,
    config: SearchConfig,
}

impl View for LocalSearch {
    type V = SearchView;

    closed spec fn view(&self) -> SearchView {
        SearchView {
            current: self.current@,
            best: if self.at_best {
                self.current@.types()
            } else {
                self.snapshot@
            },
            best_energy: self.best_energy as int,
            rng: self.rng@,
            steps: self.steps,
            stall: self.stall,
            status: self.status,
            config: self.config,
        }
    }
}

/// Whether some node differs in type from node 0.
fn has_move(start: &Assignment, inst: &ProblemInstance) -> (r: bool)
    requires
        inst.wf(),
        start.wf(inst),
        start@.complete(),
    ensures
        r == can_move(start@.slots),
{
    let n: usize = inst.node_count();
    if n == 0 {
        return false;
    }
    let first: usize = start.type_at(0);
    let mut u: usize = 1;
    while u < n
        invariant
            inst.wf(),
            start.wf(inst),
            start@.complete(),
            n == inst@.node_count,
            1 <= u <= n,
            Some(first) == start@.slots[0],
            forall|w: int| 0 <= w < u ==> (#[trigger] start@.slots[w]) == start@.slots[0],
        decreases n - u,
    {
        if start.type_at(u) != first {
            return true;
        }
        u = u + 1;
    }
    false
}

impl LocalSearch {
    /// The search is consistent with the instance.
    pub open spec fn wf(&self, inst: &ProblemInstance) -> bool {
        self@.wf(inst@)
    }

    /// Starts a search at the complete assignment `start`, with a generator seeded with `seed`.
    pub fn new(inst: &ProblemInstance, start: Assignment, seed: u64, config: SearchConfig) -> (s: LocalSearch)
        requires
            inst.wf(),
            start.wf(inst),
            start@.complete(),
        ensures
            s.wf(inst),
            s@ == SearchView::initial(start@, seed, config),
    {
        let status = if config.patience == 0 || !has_move(&start, inst) {
            SearchStatus::Converged
        } else if config.step_budget == 0 {
            SearchStatus::Stopped
        } else {
            SearchStatus::Running
        };
        proof {
            lemma_complete_assignment(start@, inst@);
        }
        let best_energy: i128 = start.total_energy();
        LocalSearch {
            current: start,
            snapshot: Vec::new(),
            at_best: true,
            best_energy,
            rng: Rng::new(seed),
            steps: 0,
            stall: 0,
            status,
            config,
        }
    }

    /// Where the search stands.
    pub fn status(&self) -> (s: SearchStatus)
        ensures
            s == self@.status,
    {
        self.status
    }

    /// The number of steps taken.
    pub fn steps(&self) -> (n: u64)
        ensures
            n == self@.steps,
    {
        self.steps
    }

    /// The assignment that the search is at.
    pub fn current(&self) -> (a: &Assignment)
        ensures
            a@ == self@.current,
    {
        &self.current
    }

    /// The energy of the assignment that the search is at.
    pub fn current_energy(&self) -> (e: i128)
        ensures
            e == self@.current.energy,
    {
        self.current.total_energy()
    }

    /// The energy of the best assignment seen so far.
    pub fn best_energy(&self) -> (e: i128)
        ensures
            e == self@.best_energy,
    {
        self.best_energy
    }

    /// The best assignment seen so far.
    pub fn best(&self) -> (t: Vec<usize>)
        requires
            self@.current.complete(),
        ensures
            t@ == self@.best,
    {
        if self.at_best {
            self.current.types()
        } else {
            let n: usize = self.snapshot.len();
            let mut t: Vec<usize> = Vec::new();
            let mut i: usize = 0;
            while i < n
                invariant
                    n == self.snapshot.len(),
                    i <= n,
                    t.len() == i,
                    forall|j: int| 0 <= j < i ==> (#[trigger] t[j]) == self.snapshot[j],
                decreases n - i,
            {
                t.push(self.snapshot[i]);
                i = i + 1;
            }
            assert(t@ =~= self.snapshot@);
            t
        }
    }

    /// Takes one step. With `cancel` set a running search is stopped and
    /// nothing else changes; a search that is not running stays as it is.
    pub fn step(&mut self, inst: &ProblemInstance, cancel: bool)
        requires
            inst.wf(),
            old(self).wf(inst),
        ensures
            final(self).wf(inst),
            final(self)@ == old(self)@.step(inst@, cancel),
            final(self)@.best_energy <= old(self)@.best_energy,
    {
        proof {
            lemma_step(self@, inst@, cancel);
            lemma_complete_assignment(self@.current, inst@);
        }
        match self.status {
            SearchStatus::Running => {},
            _ => {
                return ;
            },
        }
        if cancel {
            self.status = SearchStatus::Stopped;
            return ;
        }
        let ghost before = self@;
        let ghost d = draw(before.rng, inst@.node_count);
        let n: usize = inst.node_count();
        let u: usize = self.rng.next_below(n);
        let v: usize = self.rng.next_below(n);
        let chance: u32 = self.rng.next_u32();
        assert(u == d.u && v == d.v && chance == d.chance && self.rng@ == d.rng);
        let type_u: usize = self.current.type_at(u);
        let type_v: usize = self.current.type_at(v);
        let mut improving: bool = false;
        if type_u != type_v {
            let delta: i128 = self.current.swap_delta(inst, u, v);
            if delta < 0 {
                improving = true;
                self.current.swap(inst, u, v);
            } else {
                let heat: u32 = temperature_at(&self.config, self.steps);
                if accept(chance, heat, delta) {
                    if self.at_best {
                        self.snapshot = self.current.types();
                        self.at_best = false;
                    }
                    self.current.swap(inst, u, v);
                }
            }
        }
        if self.current.total_energy() < self.best_energy {
            self.best_energy = self.current.total_energy();
            self.at_best = true;
        }
        if improving {
            self.stall = 0;
        } else {
            self.stall = self.stall + 1;
        }
        self.steps = self.steps + 1;
        if self.stall >= self.config.patience {
            self.status = SearchStatus::Converged;
        } else if self.steps >= self.config.step_budget {
            self.status = SearchStatus::Stopped;
        }
    }

    /// Steps, uncancelled, until the search has converged or is stopped.
    pub fn run(&mut self, inst: &ProblemInstance)
        requires
            inst.wf(),
            old(self).wf(inst),
        ensures
            final(self).wf(inst),
            final(self)@ == old(self)@.run(inst@),
            final(self)@.status != SearchStatus::Running,
            final(self)@.best_energy <= old(self)@.best_energy,
    {
        let ghost start = self@;
        loop
            invariant
                inst.wf(),
                self.wf(inst),
                self@.run(inst@) == start.run(inst@),
                self@.best_energy <= start.best_energy,
            ensures
                self@.status != SearchStatus::Running,
                self@ == start.run(inst@),
            decreases self@.config.step_budget - self@.steps,
        {
            match self.status {
                SearchStatus::Running => {},
                _ => {
                    break ;
                },
            }
            proof {
                lemma_step(self@, inst@, false);
            }
            self.step(inst, false);
        }
    }
}

} // verus!

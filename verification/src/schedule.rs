//! The order of measurements: which engine is measured when, and how a measurement runs.
use crate::num::Num;
use crate::stats::{
    grows, numeric_blend, percentile, percentile_is, percentile_is_at_its_place,
    percentile_is_numeric, percentiles_ascend, sort_samples, sortable, sorting_ascends, sorting_forgets_order, sorts, stays_between, Rank,
};
use crate::workload::ThroughputPlan;
use vstd::arithmetic::div_mod::{
    lemma_add_mod_noop, lemma_fundamental_div_mod, lemma_fundamental_div_mod_converse,
    lemma_mod_bound, lemma_mod_twice, lemma_small_mod, lemma_sub_mod_noop,
};
use vstd::prelude::*;

verus! {

/// The engine that is measured as number `k` of a trial: the order rotates by one each trial.
pub open spec fn turn(trial: int, k: int, engines: int) -> int {
    (trial + k) % engines
}

/// The turn that an engine has in a trial.
pub open spec fn turn_of(trial: int, engine: int, engines: int) -> int {
    (engine - trial) % engines
}

/// In each trial every engine has exactly one turn.
pub proof fn turns_are_a_permutation(trial: int, engines: int, k: int, engine: int)
    requires
        0 < engines,
        0 <= k < engines,
        0 <= engine < engines,
    ensures
        0 <= turn(trial, k, engines) < engines,
        turn_of(trial, turn(trial, k, engines), engines) == k,
        0 <= turn_of(trial, engine, engines) < engines,
        turn(trial, turn_of(trial, engine, engines), engines) == engine,
{
    lemma_mod_bound(trial + k, engines);
    lemma_mod_bound(engine - trial, engines);
    lemma_sub_mod_noop(trial + k, trial, engines);
    lemma_sub_mod_noop((trial + k) % engines, trial, engines);
    lemma_mod_twice(trial + k, engines);
    lemma_small_mod(k as nat, engines as nat);
    lemma_add_mod_noop(trial, engine - trial, engines);
    lemma_add_mod_noop(trial, (engine - trial) % engines, engines);
    lemma_mod_twice(engine - trial, engines);
    lemma_small_mod(engine as nat, engines as nat);
}

/// The first trial takes the engines as they come, and each trial begins where the one before had
/// its second turn: what had turn `k + 1` has turn `k` in the next trial, and what had the first
/// turn has the last.
pub proof fn trials_rotate_by_one(trial: int, k: int, engines: int)
    requires
        0 < engines,
        0 <= k < engines,
    ensures
        turn(0, k, engines) == k,
        k + 1 < engines ==> turn(trial + 1, k, engines) == turn(trial, k + 1, engines),
        turn(trial + 1, engines - 1, engines) == turn(trial, 0, engines),
{
    lemma_small_mod(k as nat, engines as nat);
    vstd::arithmetic::div_mod::lemma_mod_add_multiples_vanish(trial, engines);
    assert(trial + 1 + (engines - 1) == engines + trial);
}

/// Rotating cancels the order: over any stretch of as many trials as there are engines, each
/// engine has each turn exactly once, the first turn included.
pub proof fn rotation_is_fair(start: int, engines: int, k: int, engine: int)
    requires
        0 < engines,
        0 <= k < engines,
        0 <= engine < engines,
    ensures
        exists|t: int|
            start <= t < start + engines && #[trigger] turn(t, k, engines) == engine,
        forall|t: int, u: int|
            start <= t < u < start + engines ==> #[trigger] turn(t, k, engines)
                != #[trigger] turn(u, k, engines),
{
    // The stretch of trials is itself a rotation, seen from the turn.
    turns_are_a_permutation(start + k, engines, 0, engine);
    let d = turn_of(start + k, engine, engines);
    assert(turn(start + k, d, engines) == engine);
    assert(turn(start + d, k, engines) == engine);
    assert forall|t: int, u: int| start <= t < u < start + engines implies #[trigger] turn(
        t,
        k,
        engines,
    ) != #[trigger] turn(u, k, engines) by {
        turns_are_a_permutation(start + k, engines, t - start, engine);
        turns_are_a_permutation(start + k, engines, u - start, engine);
        assert(turn(start + k, t - start, engines) == turn(t, k, engines));
        assert(turn(start + k, u - start, engines) == turn(u, k, engines));
    }
}

/// One measurement: a latency input or a batch size, with one engine.
#[derive(Clone, Copy, Debug, PartialEq, Eq, Structural)]
pub enum Step {
    Latency { scenario: usize, engine: usize },
    Throughput { scenario: usize, engine: usize },
}

/// How many engines, latency inputs and batch sizes are measured.
#[derive(Clone, Copy, Debug, PartialEq, Eq, Structural)]
pub struct Grid {
    pub engines: usize,
    pub inputs: usize,
    pub batches: usize,
}

impl Grid {
    /// The number of measurements in one trial.
    pub open spec fn per_trial(self) -> int {
        (self.inputs + self.batches) * self.engines
    }

    /// Whether a step measures something that the grid has.
    pub open spec fn has(self, step: Step) -> bool {
        match step {
            Step::Latency { scenario, engine } => scenario < self.inputs && engine < self.engines,
            Step::Throughput { scenario, engine } => scenario < self.batches && engine
                < self.engines,
        }
    }

    /// The step at a place of a trial: the latency inputs first and then the batch sizes, each
    /// with all engines in the order of the trial.
    pub open spec fn step_at(self, trial: int, place: int) -> Step {
        let row = place / (self.engines as int);
        let engine = turn(trial, place % (self.engines as int), self.engines as int) as usize;
        if row < self.inputs {
            Step::Latency { scenario: row as usize, engine }
        } else {
            Step::Throughput { scenario: (row - self.inputs) as usize, engine }
        }
    }

    /// The place of a step in a trial.
    pub open spec fn place_of(self, trial: int, step: Step) -> int {
        match step {
            Step::Latency { scenario, engine } => scenario * self.engines + turn_of(
                trial,
                engine as int,
                self.engines as int,
            ),
            Step::Throughput { scenario, engine } => (self.inputs + scenario) * self.engines
                + turn_of(trial, engine as int, self.engines as int),
        }
    }
}

/// A trial measures everything exactly once: places and steps correspond one to one.
pub proof fn trial_is_complete(grid: Grid, trial: int, place: int, step: Step)
    requires
        0 <= place < grid.per_trial(),
        grid.has(step),
        grid.inputs + grid.batches <= usize::MAX,
    ensures
        grid.has(grid.step_at(trial, place)),
        grid.place_of(trial, grid.step_at(trial, place)) == place,
        0 <= grid.place_of(trial, step) < grid.per_trial(),
        grid.step_at(trial, grid.place_of(trial, step)) == step,
{
    lemma_place_has_step(grid, trial, place);
    lemma_step_has_place(grid, trial, step);
}

/// A trial goes through the latency inputs and then the batch sizes, from the first to the last,
/// and finishes each with all engines before the next: place `row * engines + k` is that of row
/// `row` with the engine whose turn is `k`.
pub proof fn trial_goes_row_by_row(grid: Grid, trial: int, row: int, k: int)
    requires
        0 <= row < grid.inputs + grid.batches,
        0 <= k < grid.engines,
    ensures
        ({
            let engine = ((trial + k) % (grid.engines as int)) as usize;
            let step = grid.step_at(trial, row * grid.engines + k);
            &&& row < grid.inputs ==> step == (Step::Latency { scenario: row as usize, engine })
            &&& row >= grid.inputs ==> step == (Step::Throughput {
                scenario: (row - grid.inputs) as usize,
                engine,
            })
        }),
{
    let e = grid.engines as int;
    let place = row * e + k;
    assert(row * e == e * row) by (nonlinear_arith);
    lemma_fundamental_div_mod_converse(place, e, row, k);
}

proof fn lemma_place_has_step(grid: Grid, trial: int, place: int)
    requires
        0 <= place < grid.per_trial(),
        grid.inputs + grid.batches <= usize::MAX,
    ensures
        grid.has(grid.step_at(trial, place)),
        grid.place_of(trial, grid.step_at(trial, place)) == place,
{
    let e = grid.engines as int;
    let rows = grid.inputs + grid.batches;
    assert(e > 0) by (nonlinear_arith)
        requires
            0 < rows * e,
            rows >= 0,
            e >= 0,
    ;
    let row = place / e;
    let k = place % e;
    lemma_fundamental_div_mod(place, e);
    lemma_mod_bound(place, e);
    assert(0 <= row < rows) by (nonlinear_arith)
        requires
            place == e * row + k,
            0 <= k < e,
            0 <= place < rows * e,
    ;
    turns_are_a_permutation(trial, e, k, 0);
    assert(row * e == e * row) by (nonlinear_arith);
}

proof fn lemma_step_has_place(grid: Grid, trial: int, step: Step)
    requires
        grid.has(step),
        grid.inputs + grid.batches <= usize::MAX,
    ensures
        0 <= grid.place_of(trial, step) < grid.per_trial(),
        grid.step_at(trial, grid.place_of(trial, step)) == step,
{
    let e = grid.engines as int;
    let rows = grid.inputs + grid.batches;
    let (row, engine) = match step {
        Step::Latency { scenario, engine } => (scenario as int, engine as int),
        Step::Throughput { scenario, engine } => (grid.inputs + scenario, engine as int),
    };
    turns_are_a_permutation(trial, e, 0, engine);
    let k = turn_of(trial, engine, e);
    let place = row * e + k;
    assert(0 <= place < rows * e) by (nonlinear_arith)
        requires
            place == row * e + k,
            0 <= k < e,
            0 <= row < rows,
    ;
    assert(row * e == e * row) by (nonlinear_arith);
    lemma_fundamental_div_mod_converse(place, e, row, k);
}

/// A benchmark in progress: the samples taken so far and the next step.
pub struct BenchRun {
    grid: Grid,
    trials: usize,
    trial: usize,
    place: usize,
    per_trial: usize,
    latency: Vec<Vec<Vec<Num>>>,
    throughput: Vec<Vec<Vec<Num>>>,
}

fn empty_cells(rows: usize, engines: usize) -> (r: Vec<Vec<Vec<Num>>>)
    ensures
        r@.len() == rows,
        forall|i: int| 0 <= i < rows ==> (#[trigger] r@[i])@.len() == engines,
        forall|i: int, j: int|
            0 <= i < rows && 0 <= j < engines ==> (#[trigger] r@[i]@[j])@.len() == 0,
{
    let mut r: Vec<Vec<Vec<Num>>> = Vec::new();
    let mut i: usize = 0;
    while i < rows
        invariant
            i <= rows,
            r@.len() == i,
            forall|a: int| 0 <= a < i ==> (#[trigger] r@[a])@.len() == engines,
            forall|a: int, b: int|
                0 <= a < i && 0 <= b < engines ==> (#[trigger] r@[a]@[b])@.len() == 0,
        decreases rows - i,
    {
        let mut row: Vec<Vec<Num>> = Vec::new();
        let mut j: usize = 0;
        while j < engines
            invariant
                j <= engines,
                row@.len() == j,
                forall|b: int| 0 <= b < j ==> (#[trigger] row@[b])@.len() == 0,
            decreases engines - j,
        {
            row.push(Vec::new());
            j += 1;
        }
        r.push(row);
        i += 1;
    }
    r
}

impl BenchRun {
    /// What is measured.
    pub closed spec fn grid(&self) -> Grid {
        self.grid
    }

    /// How often everything is measured.
    pub closed spec fn trials(&self) -> int {
        self.trials as int
    }

    /// The number of trials that are complete.
    pub closed spec fn trial(&self) -> int {
        self.trial as int
    }

    /// The place in the trial of the next step.
    pub closed spec fn place(&self) -> int {
        self.place as int
    }

    /// The samples taken of a step, one for each trial in which it was measured, in the order
    /// of the trials.
    pub closed spec fn samples(&self, step: Step) -> Seq<Num> {
        match step {
            Step::Latency { scenario, engine } => self.latency@[scenario as int]@[engine as int]@,
            Step::Throughput {
                scenario,
                engine,
            } => self.throughput@[scenario as int]@[engine as int]@,
        }
    }

    /// Whether all trials are complete.
    pub open spec fn finished(&self) -> bool {
        self.trial() == self.trials()
    }

    closed spec fn laid_out(&self) -> bool {
        &&& self.latency@.len() == self.grid.inputs
        &&& self.throughput@.len() == self.grid.batches
        &&& forall|i: int|
            0 <= i < self.grid.inputs ==> (#[trigger] self.latency@[i])@.len() == self.grid.engines
        &&& forall|i: int|
            0 <= i < self.grid.batches ==> (#[trigger] self.throughput@[i])@.len()
                == self.grid.engines
        &&& self.per_trial == self.grid.per_trial()
        &&& self.grid.inputs + self.grid.batches <= usize::MAX
    }

    /// The state of a run: each step that comes before the current place has been measured
    /// once more than the number of complete trials, every other as often as that.
    pub closed spec fn wf(&self) -> bool {
        &&& self.laid_out()
        &&& self.trial <= self.trials
        &&& self.trial < self.trials ==> self.place < self.per_trial
        &&& self.trial == self.trials ==> self.place == 0
        &&& forall|step: Step|
            self.grid.has(step) ==> (#[trigger] self.samples(step)).len() == self.trial + (if self.grid.place_of(
                self.trial as int,
                step,
            ) < self.place {
                1int
            } else {
                0
            })
    }

    /// Starts a run; with nothing to measure every trial is complete at once.
    pub fn new(trials: usize, grid: Grid) -> (r: BenchRun)
        requires
            grid.per_trial() <= usize::MAX,
            grid.inputs + grid.batches <= usize::MAX,
        ensures
            r.wf(),
            r.grid() == grid,
            r.trials() == trials,
            r.trial() == (if grid.per_trial() == 0 {
                trials as int
            } else {
                0
            }),
            r.place() == 0,
            forall|step: Step|
                grid.has(step) ==> (#[trigger] r.samples(step)) == Seq::<Num>::empty(),
    {
        let per_trial: usize = (grid.inputs + grid.batches) * grid.engines;
        let trial: usize = if per_trial == 0 {
            trials
        } else {
            0
        };
        let r: BenchRun = BenchRun {
            grid,
            trials,
            trial,
            place: 0,
            per_trial,
            latency: empty_cells(grid.inputs, grid.engines),
            throughput: empty_cells(grid.batches, grid.engines),
        };
        proof {
            assert forall|step: Step| grid.has(step) implies (#[trigger] r.samples(step)) == Seq::<
                Num,
            >::empty() && 0 <= grid.place_of(trial as int, step) < grid.per_trial() by {
                lemma_step_has_place(grid, trial as int, step);
                assert(r.samples(step).len() == 0);
            }
            if per_trial == 0 {
                assert forall|step: Step| !grid.has(step) by {
                    if grid.has(step) {
                        lemma_step_has_place(grid, 0, step);
                    }
                }
            }
        }
        r
    }

    /// The next step, or nothing when all trials are complete.
    pub fn next_step(&self) -> (r: Option<Step>)
        requires
            self.wf(),
        ensures
            r == (if self.finished() {
                None::<Step>
            } else {
                Some(self.grid().step_at(self.trial(), self.place()))
            }),
            r matches Some(step) ==> self.grid().has(step),
    {
        if self.trial == self.trials {
            return None;
        }
        proof {
            lemma_place_has_step(self.grid, self.trial as int, self.place as int);
            assert(self.grid.engines > 0) by {
                if self.grid.engines == 0 {
                    assert((self.grid.inputs + self.grid.batches) * 0 == 0);
                }
            }
            lemma_mod_bound(self.place as int, self.grid.engines as int);
        }
        let row: usize = self.place / self.grid.engines;
        let k: usize = self.place % self.grid.engines;
        let count: u128 = self.grid.engines as u128;
        let engine: usize = ((self.trial as u128 + k as u128) % count) as usize;
        if row < self.grid.inputs {
            Some(Step::Latency { scenario: row, engine })
        } else {
            Some(Step::Throughput { scenario: row - self.grid.inputs, engine })
        }
    }

    /// Whether the next step opens a trial, and which one it is.
    pub fn opens_trial(&self) -> (r: Option<usize>)
        requires
            self.wf(),
        ensures
            r == (if !self.finished() && self.place() == 0 {
                Some(self.trial() as usize)
            } else {
                None::<usize>
            }),
    {
        if self.trial < self.trials && self.place == 0 {
            Some(self.trial)
        } else {
            None
        }
    }

    /// Takes the result of the next step down and moves on.
    pub fn record(&mut self, value: Num)
        requires
            old(self).wf(),
            !old(self).finished(),
        ensures
            final(self).wf(),
            final(self).grid() == old(self).grid(),
            final(self).trials() == old(self).trials(),
            (final(self).trial(), final(self).place()) == (if old(self).place() + 1
                == old(self).grid().per_trial() {
                (old(self).trial() + 1, 0int)
            } else {
                (old(self).trial(), old(self).place() + 1)
            }),
            forall|step: Step|
                old(self).grid().has(step) ==> (#[trigger] final(self).samples(step)) == (if step
                    == old(self).grid().step_at(old(self).trial(), old(self).place()) {
                    old(self).samples(step).push(value)
                } else {
                    old(self).samples(step)
                }),
            old(self).samples(
                old(self).grid().step_at(old(self).trial(), old(self).place()),
            ).len() == old(self).trial(),
    {
        let ghost start = *self;
        let ghost now = self.grid.step_at(self.trial as int, self.place as int);
        proof {
            lemma_place_has_step(self.grid, self.trial as int, self.place as int);
        }
        match self.next_step() {
            None => {},
            Some(Step::Latency { scenario, engine }) => {
                self.latency[scenario][engine].push(value);
            },
            Some(Step::Throughput { scenario, engine }) => {
                self.throughput[scenario][engine].push(value);
            },
        }
        self.place = self.place + 1;
        if self.place == self.per_trial {
            self.place = 0;
            self.trial = self.trial + 1;
        }
        proof {
            assert forall|step: Step| start.grid.has(step) implies (#[trigger] self.samples(step))
                == (if step == now {
                start.samples(step).push(value)
            } else {
                start.samples(step)
            }) by {}
            assert forall|step: Step| self.grid.has(step) implies (#[trigger] self.samples(
                step,
            )).len() == self.trial + (if self.grid.place_of(self.trial as int, step) < self.place {
                1int
            } else {
                0
            }) by {
                lemma_step_has_place(self.grid, start.trial as int, step);
                lemma_step_has_place(self.grid, self.trial as int, step);
                assert(start.samples(step).len() >= start.trial);
                if step != now {
                    assert(self.grid.place_of(start.trial as int, step) != start.place);
                }
            }
        }
    }

    /// The latency samples of an input, engine by engine.
    pub fn latency(&self, scenario: usize) -> (r: &Vec<Vec<Num>>)
        requires
            self.wf(),
            scenario < self.grid().inputs,
        ensures
            r@.len() == self.grid().engines,
            forall|engine: usize|
                engine < self.grid().engines ==> #[trigger] r@[engine as int]@ == self.samples(
                    Step::Latency { scenario, engine },
                ),
    {
        &self.latency[scenario]
    }

    /// The throughput samples of a batch size, engine by engine.
    pub fn throughput(&self, scenario: usize) -> (r: &Vec<Vec<Num>>)
        requires
            self.wf(),
            scenario < self.grid().batches,
        ensures
            r@.len() == self.grid().engines,
            forall|engine: usize|
                engine < self.grid().engines ==> #[trigger] r@[engine as int]@ == self.samples(
                    Step::Throughput { scenario, engine },
                ),
    {
        &self.throughput[scenario]
    }
}

/// When a run is complete, every step has exactly as many samples as there were trials.
pub proof fn finished_run_is_full(run: BenchRun, step: Step)
    requires
        run.wf(),
        run.finished(),
        run.grid().has(step),
    ensures
        run.samples(step).len() == run.trials(),
{
    lemma_step_has_place(run.grid(), run.trial(), step);
}

/// A run that is not complete gets closer to it with each record: what is left to measure
/// shrinks by one.
pub proof fn records_make_progress(run: BenchRun, trial: int, place: int)
    requires
        run.wf(),
        !run.finished(),
        (trial, place) == (if run.place() + 1 == run.grid().per_trial() {
            (run.trial() + 1, 0int)
        } else {
            (run.trial(), run.place() + 1)
        }),
    ensures
        (run.trials() - trial) * run.grid().per_trial() - place == (run.trials() - run.trial())
            * run.grid().per_trial() - run.place() - 1,
        (run.trials() - run.trial()) * run.grid().per_trial() - run.place() > 0,
{
    let per = run.grid().per_trial();
    let left = run.trials() - run.trial();
    assert((left - 1) * per == left * per - per) by (nonlinear_arith);
    assert(left * per >= per) by (nonlinear_arith)
        requires
            left >= 1,
            per >= 0,
    ;
}

/// What a latency measurement does next.
#[derive(Clone, Copy, Debug, PartialEq, Eq, Structural)]
pub enum LatencyAction {
    /// Embed without taking the time.
    WarmUp,
    /// Embed and take the time.
    Time,
    /// Stop: everything was measured.
    Done,
    /// Stop: an embedding failed.
    Failed,
}

/// A latency measurement in progress: single embeddings, first some to warm up and then some
/// that are timed. The first that fails ends it.
pub struct LatencyRun {
    warmups: usize,
    wanted: usize,
    warmed: usize,
    taken: Vec<Num>,
    failed: bool,
}

impl LatencyRun {
    /// The number of embeddings to warm up with.
    pub closed spec fn warmups(&self) -> int {
        self.warmups as int
    }

    /// The number of timed embeddings to make.
    pub closed spec fn wanted(&self) -> int {
        self.wanted as int
    }

    /// The number of embeddings made to warm up.
    pub closed spec fn warmed(&self) -> int {
        self.warmed as int
    }

    /// The times taken so far.
    pub closed spec fn taken(&self) -> Seq<Num> {
        self.taken@
    }

    /// Whether an embedding failed.
    pub closed spec fn failed(&self) -> bool {
        self.failed
    }

    /// Timing begins when warming up is over, and no more is done than is wanted.
    pub open spec fn wf(&self) -> bool {
        &&& 0 <= self.warmed() <= self.warmups()
        &&& self.taken().len() <= self.wanted()
        &&& self.taken().len() > 0 ==> self.warmed() == self.warmups()
    }

    /// What comes next.
    pub open spec fn action(&self) -> LatencyAction {
        if self.failed() {
            LatencyAction::Failed
        } else if self.warmed() < self.warmups() {
            LatencyAction::WarmUp
        } else if self.taken().len() < self.wanted() {
            LatencyAction::Time
        } else {
            LatencyAction::Done
        }
    }

    /// Starts a measurement.
    pub fn new(warmups: usize, wanted: usize) -> (r: LatencyRun)
        ensures
            r.wf(),
            r.warmups() == warmups,
            r.wanted() == wanted,
            r.warmed() == 0,
            r.taken() == Seq::<Num>::empty(),
            !r.failed(),
    {
        LatencyRun { warmups, wanted, warmed: 0, taken: Vec::new(), failed: false }
    }

    /// What comes next.
    pub fn next(&self) -> (r: LatencyAction)
        ensures
            r == self.action(),
    {
        if self.failed {
            LatencyAction::Failed
        } else if self.warmed < self.warmups {
            LatencyAction::WarmUp
        } else if self.taken.len() < self.wanted {
            LatencyAction::Time
        } else {
            LatencyAction::Done
        }
    }

    /// Notes an embedding made to warm up.
    pub fn warm(&mut self)
        requires
            old(self).wf(),
            old(self).action() == LatencyAction::WarmUp,
        ensures
            final(self).wf(),
            final(self).warmups() == old(self).warmups(),
            final(self).wanted() == old(self).wanted(),
            final(self).warmed() == old(self).warmed() + 1,
            final(self).taken() == old(self).taken(),
            !final(self).failed(),
    {
        self.warmed = self.warmed + 1;
    }

    /// Notes the time of an embedding.
    pub fn time(&mut self, value: Num)
        requires
            old(self).wf(),
            old(self).action() == LatencyAction::Time,
        ensures
            final(self).wf(),
            final(self).warmups() == old(self).warmups(),
            final(self).wanted() == old(self).wanted(),
            final(self).warmed() == old(self).warmed(),
            final(self).taken() == old(self).taken().push(value),
            !final(self).failed(),
    {
        self.taken.push(value);
    }

    /// Notes that an embedding failed; nothing is measured after it.
    pub fn fail(&mut self)
        requires
            old(self).wf(),
        ensures
            final(self).wf(),
            final(self).warmups() == old(self).warmups(),
            final(self).wanted() == old(self).wanted(),
            final(self).warmed() == old(self).warmed(),
            final(self).taken() == old(self).taken(),
            final(self).failed(),
    {
        self.failed = true;
    }

    /// The times of a measurement that is done, from short to long.
    pub fn sorted(&self) -> (r: Vec<Num>)
        requires
            self.action() == LatencyAction::Done,
            sortable(self.taken()),
        ensures
            sorts(self.taken(), r@),
    {
        sort_samples(&self.taken)
    }

    /// The median of the times of a measurement that is done.
    pub fn median<B: Fn(Num, Num, Rank) -> Num>(&self, blend: &B) -> (r: Num)
        requires
            self.action() == LatencyAction::Done,
            sortable(self.taken()),
            forall|lo: Num, hi: Num, k: Rank| call_requires(*blend, (lo, hi, k)),
        ensures
            median_of(self.taken(), *blend, r),
    {
        let sorted: Vec<Num> = sort_samples(&self.taken);
        percentile(&sorted, 50, blend)
    }
}

/// Whether a number is the median of some times.
pub open spec fn median_of<B: Fn(Num, Num, Rank) -> Num>(
    times: Seq<Num>,
    blend: B,
    r: Num,
) -> bool {
    exists|sorted: Seq<Num>| #[trigger] sorts(times, sorted) && percentile_is(sorted, 50, blend, r)
}

/// The median is the same number in whatever order the times came, where the interpolation goes
/// by the numbers.
pub proof fn median_forgets_order<B: Fn(Num, Num, Rank) -> Num>(
    times: Seq<Num>,
    others: Seq<Num>,
    blend: B,
    r: Num,
    s: Num,
)
    requires
        times.len() <= usize::MAX,
        times.to_multiset() == others.to_multiset(),
        numeric_blend(blend),
        median_of(times, blend, r),
        median_of(others, blend, s),
    ensures
        r.key() == s.key(),
{
    let x = choose|sorted: Seq<Num>| #[trigger]
        sorts(times, sorted) && percentile_is(sorted, 50, blend, r);
    let y = choose|sorted: Seq<Num>| #[trigger]
        sorts(others, sorted) && percentile_is(sorted, 50, blend, s);
    sorting_forgets_order(times, others, x, y);
    sorting_ascends(times, x);
    percentile_is_numeric(x, y, 50, blend, r, s);
}

/// The median lies between the least and the greatest of the times, where the interpolation
/// lies between its samples and grows.
pub proof fn median_is_inside<B: Fn(Num, Num, Rank) -> Num>(times: Seq<Num>, blend: B, r: Num)
    requires
        0 < times.len() <= usize::MAX,
        stays_between(blend),
        grows(blend),
        median_of(times, blend, r),
    ensures
        exists|k: int| 0 <= k < times.len() && (#[trigger] times[k]).key() <= r.key(),
        exists|k: int| 0 <= k < times.len() && r.key() <= (#[trigger] times[k]).key(),
{
    let x = choose|sorted: Seq<Num>| #[trigger]
        sorts(times, sorted) && percentile_is(sorted, 50, blend, r);
    sorting_ascends(times, x);
    percentiles_ascend(x, 50, 50, blend, r, r);
    assert(x.contains(x[0]) && x.contains(x.last()));
    assert(times.contains(x[0]) && times.contains(x.last()));
}

/// The median of an odd number of times is the middle one of them in their order from short to
/// long, and of an even number what the interpolation makes of the middle two.
pub proof fn median_is_the_middle<B: Fn(Num, Num, Rank) -> Num>(times: Seq<Num>, blend: B, r: Num)
    requires
        0 < times.len() < 0x800_0000_0000,
        times.len() <= usize::MAX,
        median_of(times, blend, r),
    ensures
        exists|sorted: Seq<Num>|
            #![trigger sorted.to_multiset()]
            {
                let half = (sorted.len() - 1) / 2;
                &&& sorted.to_multiset() == times.to_multiset()
                &&& sorted.len() == times.len()
                &&& forall|i: int, j: int|
                    0 <= i <= j < sorted.len() ==> (#[trigger] sorted[i]).key() <= (
                    #[trigger] sorted[j]).key()
                &&& times.len() % 2 == 1 ==> r == sorted[half]
                &&& times.len() % 2 == 0 ==> call_ensures(
                    blend,
                    (
                        sorted[half],
                        sorted[half + 1],
                        Rank {
                            percent: 50,
                            last: (sorted.len() - 1) as usize,
                            lo: half as usize,
                            hi: (half + 1) as usize,
                        },
                    ),
                    r,
                )
            },
{
    let x = choose|sorted: Seq<Num>| #[trigger]
        sorts(times, sorted) && percentile_is(sorted, 50, blend, r);
    sorting_ascends(times, x);
    percentile_is_at_its_place(x, 50, blend, r);
    let last = x.len() - 1;
    assert(50 * last / 100 == last / 2 && (50 * last % 100 == 0 <==> last % 2 == 0));
    assert(x.to_multiset() == times.to_multiset());
}

/// A measurement is done exactly when none of its embeddings failed and it has warmed up and
/// timed as often as it was asked to.
pub proof fn done_means_all_taken(run: LatencyRun)
    requires
        run.wf(),
    ensures
        run.action() == LatencyAction::Done <==> !run.failed() && run.warmed() == run.warmups()
            && run.taken().len() == run.wanted(),
        run.action() == LatencyAction::Done ==> run.warmed() + run.taken().len() == run.warmups()
            + run.wanted(),
        run.failed() <==> run.action() == LatencyAction::Failed,
        run.action() == LatencyAction::WarmUp <==> !run.failed() && run.warmed() < run.warmups(),
        run.action() == LatencyAction::Time <==> !run.failed() && run.warmed() == run.warmups()
            && run.taken().len() < run.wanted(),
{
}

/// What a throughput measurement does next.
#[derive(Clone, Copy, Debug, PartialEq, Eq, Structural)]
pub enum ThroughputAction {
    /// Embed the batch before timing begins.
    WarmUp,
    /// Start the clock.
    Start,
    /// Embed the batch while the clock runs.
    Embed,
    /// Stop the clock: everything was measured.
    Done,
    /// Stop: a batch failed.
    Failed,
}

/// A throughput measurement in progress: the same batch over and over, first some times to warm
/// up and then some times against one clock. The first that fails ends it.
pub struct ThroughputRun {
    warmups: usize,
    wanted: usize,
    warmed: usize,
    started: bool,
    embedded: usize,
    failed: bool,
}

impl ThroughputRun {
    /// The number of batches to warm up with.
    pub closed spec fn warmups(&self) -> int {
        self.warmups as int
    }

    /// The number of batches to embed while the clock runs.
    pub closed spec fn wanted(&self) -> int {
        self.wanted as int
    }

    /// The number of batches embedded to warm up.
    pub closed spec fn warmed(&self) -> int {
        self.warmed as int
    }

    /// Whether the clock has been started.
    pub closed spec fn started(&self) -> bool {
        self.started
    }

    /// The number of batches embedded while the clock ran.
    pub closed spec fn embedded(&self) -> int {
        self.embedded as int
    }

    /// Whether a batch failed.
    pub closed spec fn failed(&self) -> bool {
        self.failed
    }

    /// The clock starts once, when warming up is over, and no more is done than is wanted.
    pub open spec fn wf(&self) -> bool {
        &&& 0 <= self.warmed() <= self.warmups()
        &&& 0 <= self.embedded() <= self.wanted()
        &&& self.started() ==> self.warmed() == self.warmups()
        &&& self.embedded() > 0 ==> self.started()
    }

    /// What comes next.
    pub open spec fn action(&self) -> ThroughputAction {
        if self.failed() {
            ThroughputAction::Failed
        } else if self.warmed() < self.warmups() {
            ThroughputAction::WarmUp
        } else if !self.started() {
            ThroughputAction::Start
        } else if self.embedded() < self.wanted() {
            ThroughputAction::Embed
        } else {
            ThroughputAction::Done
        }
    }

    /// Starts a measurement of a plan.
    pub fn new(plan: &ThroughputPlan) -> (r: ThroughputRun)
        ensures
            r.wf(),
            r.warmups() == plan.warmups,
            r.wanted() == plan.reps,
            r.warmed() == 0,
            !r.started(),
            r.embedded() == 0,
            !r.failed(),
    {
        ThroughputRun {
            warmups: plan.warmups,
            wanted: plan.reps,
            warmed: 0,
            started: false,
            embedded: 0,
            failed: false,
        }
    }

    /// What comes next.
    pub fn next(&self) -> (r: ThroughputAction)
        ensures
            r == self.action(),
    {
        if self.failed {
            ThroughputAction::Failed
        } else if self.warmed < self.warmups {
            ThroughputAction::WarmUp
        } else if !self.started {
            ThroughputAction::Start
        } else if self.embedded < self.wanted {
            ThroughputAction::Embed
        } else {
            ThroughputAction::Done
        }
    }

    /// Notes that what comes next was done.
    pub fn done(&mut self)
        requires
            old(self).wf(),
            old(self).action() != ThroughputAction::Done,
            old(self).action() != ThroughputAction::Failed,
        ensures
            final(self).wf(),
            final(self).warmups() == old(self).warmups(),
            final(self).wanted() == old(self).wanted(),
            final(self).warmed() == old(self).warmed() + (if old(self).action()
                == ThroughputAction::WarmUp {
                1int
            } else {
                0
            }),
            final(self).started() == (old(self).started() || old(self).action()
                == ThroughputAction::Start),
            final(self).embedded() == old(self).embedded() + (if old(self).action()
                == ThroughputAction::Embed {
                1int
            } else {
                0
            }),
            !final(self).failed(),
    {
        if self.warmed < self.warmups {
            self.warmed = self.warmed + 1;
        } else if !self.started {
            self.started = true;
        } else {
            self.embedded = self.embedded + 1;
        }
    }

    /// Notes that a batch failed; nothing is measured after it.
    pub fn fail(&mut self)
        requires
            old(self).wf(),
        ensures
            final(self).wf(),
            final(self).warmups() == old(self).warmups(),
            final(self).wanted() == old(self).wanted(),
            final(self).warmed() == old(self).warmed(),
            final(self).started() == old(self).started(),
            final(self).embedded() == old(self).embedded(),
            final(self).failed(),
    {
        self.failed = true;
    }
}

/// A measurement is done exactly when no batch failed, all that were to warm up were embedded
/// before the clock started and all that were to be timed after it.
pub proof fn done_means_all_embedded(run: ThroughputRun)
    requires
        run.wf(),
    ensures
        run.action() == ThroughputAction::Done <==> !run.failed() && run.started() && run.warmed()
            == run.warmups() && run.embedded() == run.wanted(),
        run.failed() <==> run.action() == ThroughputAction::Failed,
        run.action() == ThroughputAction::WarmUp <==> !run.failed() && run.warmed()
            < run.warmups(),
        run.action() == ThroughputAction::Start <==> !run.failed() && run.warmed() == run.warmups()
            && !run.started(),
        run.action() == ThroughputAction::Embed <==> !run.failed() && run.started()
            && run.embedded() < run.wanted(),
{
}

} // verus!

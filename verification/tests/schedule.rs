use inference_bench::num::Num;
use inference_bench::schedule::{
    BenchRun, Grid, LatencyAction, LatencyRun, Step, ThroughputAction, ThroughputRun,
};
use inference_bench::workload::{throughput_plan, Profile};
use inference_bench::stats::Rank;

fn num(x: f64) -> Num {
    Num { bits: x.to_bits() }
}

fn val(x: Num) -> f64 {
    f64::from_bits(x.bits)
}

fn steps(trials: usize, grid: Grid) -> (Vec<Step>, BenchRun) {
    let mut run = BenchRun::new(trials, grid);
    let mut all = Vec::new();
    while let Some(step) = run.next_step() {
        all.push(step);
        run.record(num(all.len() as f64));
    }
    (all, run)
}

#[test]
fn engines_rotate_each_trial() {
    let grid = Grid { engines: 3, inputs: 1, batches: 1 };
    let (all, _) = steps(2, grid);
    let engine = |s: &Step| match s {
        Step::Latency { engine, .. } => *engine,
        Step::Throughput { engine, .. } => *engine,
    };
    let order: Vec<usize> = all.iter().map(engine).collect();
    assert_eq!(order, vec![0, 1, 2, 0, 1, 2, 1, 2, 0, 1, 2, 0]);
}

#[test]
fn latency_inputs_come_before_batches() {
    let grid = Grid { engines: 2, inputs: 2, batches: 1 };
    let (all, _) = steps(1, grid);
    assert_eq!(
        all,
        vec![
            Step::Latency { scenario: 0, engine: 0 },
            Step::Latency { scenario: 0, engine: 1 },
            Step::Latency { scenario: 1, engine: 0 },
            Step::Latency { scenario: 1, engine: 1 },
            Step::Throughput { scenario: 0, engine: 0 },
            Step::Throughput { scenario: 0, engine: 1 },
        ]
    );
}

#[test]
fn every_cell_gets_one_sample_per_trial() {
    let grid = Grid { engines: 2, inputs: 3, batches: 5 };
    let (all, run) = steps(10, grid);
    assert_eq!(all.len(), 10 * 2 * 8);
    for i in 0..3 {
        for cell in run.latency(i) {
            assert_eq!(cell.len(), 10);
        }
    }
    for i in 0..5 {
        for cell in run.throughput(i) {
            assert_eq!(cell.len(), 10);
        }
    }
}

#[test]
fn samples_stay_in_trial_order() {
    let grid = Grid { engines: 2, inputs: 1, batches: 0 };
    let (_, run) = steps(3, grid);
    let a: Vec<f64> = run.latency(0)[0].iter().map(|x| val(*x)).collect();
    let b: Vec<f64> = run.latency(0)[1].iter().map(|x| val(*x)).collect();
    assert_eq!(a, vec![1.0, 4.0, 5.0]);
    assert_eq!(b, vec![2.0, 3.0, 6.0]);
}

#[test]
fn each_engine_goes_first_equally_often() {
    let grid = Grid { engines: 4, inputs: 1, batches: 0 };
    let (all, _) = steps(8, grid);
    let mut firsts = vec![0; 4];
    for chunk in all.chunks(4) {
        if let Step::Latency { engine, .. } = chunk[0] {
            firsts[engine] += 1;
        }
    }
    assert_eq!(firsts, vec![2, 2, 2, 2]);
}

#[test]
fn trials_are_announced() {
    let mut run = BenchRun::new(2, Grid { engines: 1, inputs: 1, batches: 1 });
    assert_eq!(run.opens_trial(), Some(0));
    run.record(num(1.0));
    assert_eq!(run.opens_trial(), None);
    run.record(num(1.0));
    assert_eq!(run.opens_trial(), Some(1));
    run.record(num(1.0));
    run.record(num(1.0));
    assert_eq!(run.opens_trial(), None);
    assert_eq!(run.next_step(), None);
}

#[test]
fn nothing_to_measure_is_complete_at_once() {
    let run = BenchRun::new(7, Grid { engines: 0, inputs: 3, batches: 5 });
    assert_eq!(run.next_step(), None);
    let none = BenchRun::new(0, Grid { engines: 2, inputs: 3, batches: 5 });
    assert_eq!(none.next_step(), None);
}

#[test]
fn latency_warms_up_before_timing() {
    let mut run = LatencyRun::new(2, 3);
    let mut seen = Vec::new();
    let mut t = 0.0;
    loop {
        let next = run.next();
        seen.push(next);
        match next {
            LatencyAction::WarmUp => run.warm(),
            LatencyAction::Time => {
                t += 1.0;
                run.time(num(10.0 - t));
            }
            LatencyAction::Done | LatencyAction::Failed => break,
        }
    }
    assert_eq!(
        seen,
        vec![
            LatencyAction::WarmUp,
            LatencyAction::WarmUp,
            LatencyAction::Time,
            LatencyAction::Time,
            LatencyAction::Time,
            LatencyAction::Done,
        ]
    );
    let sorted: Vec<f64> = run.sorted().iter().map(|x| val(*x)).collect();
    assert_eq!(sorted, vec![7.0, 8.0, 9.0]);
    let blend = |_lo: Num, _hi: Num, _k: Rank| num(-1.0);
    assert_eq!(val(run.median(&blend)), 8.0);
}

#[test]
fn a_failed_embedding_ends_the_run() {
    let mut run = LatencyRun::new(1, 2);
    run.warm();
    run.time(num(1.0));
    run.fail();
    assert_eq!(run.next(), LatencyAction::Failed);
    let plan = throughput_plan(1, &Vec::new(), Profile::new(1, 1, 1, 1));
    let mut batches = ThroughputRun::new(&plan);
    batches.fail();
    assert_eq!(batches.next(), ThroughputAction::Failed);
}

#[test]
fn batches_warm_up_before_the_clock_starts() {
    let plan = throughput_plan(4, &Vec::new(), Profile::new(2, 3, 1, 3));
    let mut run = ThroughputRun::new(&plan);
    let mut seen = Vec::new();
    while run.next() != ThroughputAction::Done {
        seen.push(run.next());
        run.done();
    }
    assert_eq!(
        seen,
        vec![
            ThroughputAction::WarmUp,
            ThroughputAction::WarmUp,
            ThroughputAction::Start,
            ThroughputAction::Embed,
            ThroughputAction::Embed,
            ThroughputAction::Embed,
        ]
    );
}

#[test]
fn the_median_forgets_the_order() {
    let median = |v: &[f64]| {
        let mut run = LatencyRun::new(0, v.len());
        for x in v {
            run.time(num(*x));
        }
        let blend = |lo: Num, hi: Num, _k: Rank| num((val(lo) + val(hi)) / 2.0);
        val(run.median(&blend))
    };
    assert_eq!(median(&[4.0, 1.0, 3.0, 2.0]), 2.5);
    assert_eq!(median(&[1.0, 2.0, 3.0, 4.0]), 2.5);
    assert_eq!(median(&[-0.0, 1.0, 0.0]), median(&[0.0, -0.0, 1.0]));
}

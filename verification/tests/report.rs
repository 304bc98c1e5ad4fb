use inference_bench::num::Num;
use inference_bench::report::{
    aggregate_all, bench_latency, bench_throughput, latency_rec, latency_row, throughput_rec,
    throughput_row, Cell, Config, Measurement, Moments,
};
use inference_bench::schedule::LatencyRun;
use inference_bench::stats::Rank;
use inference_bench::workload::{throughput_plan, LatencyInput, Profile};

fn num(x: f64) -> Num {
    Num { bits: x.to_bits() }
}

fn val(x: Num) -> f64 {
    f64::from_bits(x.bits)
}

fn blend(lo: Num, hi: Num, k: Rank) -> Num {
    let place = k.percent as f64 / 100.0 * k.last as f64;
    num(val(lo) + (place - k.lo as f64) * (val(hi) - val(lo)))
}

fn minus(a: Num, b: Num) -> Num {
    num(val(a) - val(b))
}

fn div(a: Num, b: Num) -> Num {
    num(val(a) / val(b))
}

fn names(v: &[&str]) -> Vec<String> {
    v.iter().map(|s| s.to_string()).collect()
}

#[test]
fn all_engines_are_aggregated() {
    let samples = vec![vec![num(2.0), num(1.0)], vec![num(5.0)]];
    let r = aggregate_all(&samples, &blend, &minus);
    assert_eq!(val(r[0].median), 1.5);
    assert_eq!(val(r[1].median), 5.0);
    assert_eq!(r[1].n, 1);
}

fn nums(v: &[f64]) -> Vec<Num> {
    v.iter().map(|x| num(*x)).collect()
}

#[test]
fn latency_records_name_the_fastest() {
    let input = LatencyInput { label: "short".to_string(), text: "Dark brown iris.".to_string() };
    let samples = vec![nums(&[1.0, 2.0]), nums(&[2.0, 4.0])];
    let r = latency_rec(&input, &names(&["b", "a"]), &samples, &div, &blend, &minus).unwrap();
    assert_eq!(r.seq_label, "short");
    assert_eq!(r.approx_tokens, 3);
    assert_eq!(r.fastest, "b");
    assert_eq!(r.ms.entry(0).0, "a");
    assert_eq!(val(r.ms.entry(0).1.median), 3.0);
    assert_eq!(val(r.ms.entry(1).1.median), 1.5);
    assert_eq!(r.pairwise.len(), 1);
    assert_eq!(r.pairwise[0].a, "b");
    assert_eq!(val(r.pairwise[0].speedup_x.median), 2.0);
    assert_eq!(r.pairwise[0].faster, "b");
}

#[test]
fn throughput_records_name_the_fastest() {
    let samples = vec![nums(&[10.0, 10.0]), nums(&[20.0, 40.0])];
    let r = throughput_rec(8, &names(&["b", "a"]), &samples, &div, &blend, &minus).unwrap();
    assert_eq!(r.batch, 8);
    assert_eq!(r.fastest, "a");
    assert_eq!(val(r.sps.get("b").unwrap().median), 10.0);
    assert_eq!(r.pairwise[0].faster, "a");
}

#[test]
fn records_need_numbers() {
    let inf = f64::INFINITY;
    let two = names(&["a", "b"]);
    let sample = vec![nums(&[1.0, f64::NAN]), nums(&[1.0, 1.0])];
    assert!(throughput_rec(1, &two, &sample, &div, &blend, &minus).is_none());
    let ratio = vec![nums(&[inf, inf]), nums(&[inf, inf])];
    assert!(throughput_rec(1, &two, &ratio, &div, &blend, &minus).is_none());
    let median = vec![nums(&[-inf, inf]), nums(&[1.0, 1.0])];
    assert!(throughput_rec(1, &two, &median, &div, &blend, &minus).is_none());
    let lone = vec![nums(&[f64::NAN])];
    let r = throughput_rec(1, &names(&["a"]), &lone, &div, &blend, &minus).unwrap();
    assert_eq!(r.fastest, "a");
    assert!(r.sps.entry(0).1.median.is_nan());
}

#[test]
fn configs_hold_the_setup() {
    let c = Config::new(4, Profile::comparison());
    assert_eq!((c.trials, c.latency_samples, c.throughput_reps), (4, 80, 10));
    assert_eq!(c.batch_sizes, vec![1, 8, 16, 32, 64]);
}

fn taken(v: &[f64]) -> LatencyRun {
    let mut run = LatencyRun::new(0, v.len());
    for x in v {
        run.time(num(*x));
    }
    run
}

fn moments(v: &Vec<Num>) -> Moments {
    let n = v.len() as f64;
    let mean = v.iter().map(|x| val(*x)).sum::<f64>() / n;
    Moments { mean: num(mean), margin: num(0.5) }
}

fn percent(margin: Num, mean: Num) -> Num {
    num(val(margin) / val(mean) * 100.0)
}

#[test]
fn single_pass_latency_is_summed_up() {
    let input = LatencyInput { label: "short".to_string(), text: "a b".to_string() };
    let run = taken(&[4.0, 2.0, 3.0, 1.0]);
    match bench_latency("candle-cpu", &input, &run, &blend, &moments, &percent) {
        Measurement::Latency {
            engine,
            seq_label,
            approx_tokens,
            samples,
            mean_ms,
            p50_ms,
            p95_ms,
            p99_ms,
            rel_moe_pct,
        } => {
            assert_eq!(engine, "candle-cpu");
            assert_eq!(seq_label, "short");
            assert_eq!(approx_tokens, 2);
            assert_eq!(samples, 4);
            assert_eq!(val(mean_ms), 2.5);
            assert_eq!(val(p50_ms), 2.5);
            assert!((val(p95_ms) - 3.85).abs() < 1e-9);
            assert!((val(p99_ms) - 3.97).abs() < 1e-9);
            assert_eq!(val(rel_moe_pct), 20.0);
        }
        other => panic!("{other:?}"),
    }
}

#[test]
fn a_mean_of_zero_has_no_relative_margin() {
    let input = LatencyInput { label: "x".to_string(), text: "".to_string() };
    match bench_latency("e", &input, &taken(&[0.0]), &blend, &moments, &percent) {
        Measurement::Latency { rel_moe_pct, mean_ms, .. } => {
            assert_eq!(val(mean_ms), 0.0);
            assert_eq!(val(rel_moe_pct), 0.0);
        }
        other => panic!("{other:?}"),
    }
}

#[test]
fn single_pass_throughput_counts_sentences() {
    let plan = throughput_plan(16, &Vec::new(), Profile::single_pass());
    let rate = |n: usize| num(n as f64 / 2.0);
    match bench_throughput("e", 16, &plan, &rate) {
        Measurement::Throughput { engine, batch, reps, sentences_per_sec } => {
            assert_eq!(engine, "e");
            assert_eq!(batch, 16);
            assert_eq!(reps, 20);
            assert_eq!(val(sentences_per_sec), 160.0);
        }
        other => panic!("{other:?}"),
    }
}

#[test]
fn rows_star_the_fastest() {
    let cells = vec![
        Cell { name: "candle".to_string(), figures: "  1.00[0.10]".to_string() },
        Cell { name: "burn".to_string(), figures: "  2.00[0.20]".to_string() },
    ];
    assert_eq!(
        latency_row("short", &cells, "candle"),
        format!("  {:6}  candle   1.00[0.10]*  burn   2.00[0.20] ", "short")
    );
    assert_eq!(latency_row("mediums", &Vec::new(), ""), format!("  {:6}", "mediums"));
    assert_eq!(
        throughput_row(8, &cells, "burn"),
        format!("  b={:<3}  candle   1.00[0.10]   burn   2.00[0.20]*", 8)
    );
    assert_eq!(throughput_row(1024, &Vec::new(), ""), format!("  b={:<3}", 1024));
}

#[test]
fn measurements_forget_the_order() {
    let input = LatencyInput { label: "x".to_string(), text: "a".to_string() };
    let figures = |v: &[f64]| match bench_latency("e", &input, &taken(v), &blend, &moments, &percent) {
        Measurement::Latency { mean_ms, p50_ms, p95_ms, p99_ms, rel_moe_pct, .. } => {
            assert!(val(p50_ms) <= val(p95_ms) && val(p95_ms) <= val(p99_ms));
            [val(mean_ms), val(p50_ms), val(p95_ms), val(p99_ms), val(rel_moe_pct)]
        }
        other => panic!("{other:?}"),
    };
    assert_eq!(figures(&[3.0, 1.0, 2.0]), figures(&[2.0, 3.0, 1.0]));
    assert_eq!(figures(&[0.0, 4.0, -0.0]), figures(&[-0.0, 0.0, 4.0]));
}

use inference_bench::compare::{
    beats, checked_pairwise, fastest_by, is_comparable, pairwise, unordered_pairs, Metric,
    NameTable,
};
use inference_bench::num::Num;
use inference_bench::stats::{Agg, Rank};

fn num(x: f64) -> Num {
    Num { bits: x.to_bits() }
}

fn val(x: Num) -> f64 {
    f64::from_bits(x.bits)
}

fn nums(v: &[f64]) -> Vec<Num> {
    v.iter().map(|x| num(*x)).collect()
}

fn blend(lo: Num, hi: Num, k: Rank) -> Num {
    let place = k.percent as f64 / 100.0 * k.last as f64;
    num(val(lo) + (place - k.lo as f64) * (val(hi) - val(lo)))
}

fn minus(a: Num, b: Num) -> Num {
    num(val(a) - val(b))
}

fn div(a: Num, b: Num) -> Num {
    num(val(a) / val(b))
}

fn with_median(m: f64) -> Agg {
    Agg { median: num(m), p25: num(0.0), p75: num(0.0), iqr: num(0.0), n: 1 }
}

fn names(v: &[&str]) -> Vec<String> {
    v.iter().map(|s| s.to_string()).collect()
}

fn table(v: &[(&str, f64)]) -> NameTable {
    let n: Vec<String> = v.iter().map(|e| e.0.to_string()).collect();
    let a: Vec<Agg> = v.iter().map(|e| with_median(e.1)).collect();
    NameTable::collect(&n, &a)
}

#[test]
fn better_depends_on_the_metric() {
    assert!(beats(Metric::Latency, num(1.0), num(2.0)));
    assert!(!beats(Metric::Latency, num(2.0), num(2.0)));
    assert!(beats(Metric::Throughput, num(2.0), num(1.0)));
    assert!(!beats(Metric::Throughput, num(f64::NAN), num(1.0)));
}

#[test]
fn tables_are_sorted_and_keep_the_last() {
    let t = table(&[("ort", 1.0), ("burn", 2.0), ("candle", 3.0), ("burn", 4.0)]);
    assert_eq!(t.len(), 3);
    assert_eq!(t.entry(0).0, "burn");
    assert_eq!(val(t.entry(0).1.median), 4.0);
    assert_eq!(t.entry(1).0, "candle");
    assert_eq!(t.entry(2).0, "ort");
    assert_eq!(val(t.get("ort").unwrap().median), 1.0);
    assert!(t.get("tract").is_none());
}

#[test]
fn tables_sort_like_an_ordered_map() {
    let keys = ["b", "a", "ab", "", "B", "ä", "z", "\u{ffff}", "\u{10000}", "a\u{0}"];
    let mut sorted = std::collections::BTreeMap::new();
    for (i, k) in keys.iter().enumerate() {
        sorted.insert(k.to_string(), i);
    }
    let entries: Vec<(&str, f64)> = keys.iter().enumerate().map(|(i, k)| (*k, i as f64)).collect();
    let t = table(&entries);
    let got: Vec<String> = (0..t.len()).map(|i| t.entry(i).0.to_string()).collect();
    let expected: Vec<String> = sorted.keys().cloned().collect();
    assert_eq!(got, expected);
}

#[test]
fn fastest_has_the_best_median() {
    let t = table(&[("ort", 1.5), ("burn", 2.0), ("candle", 1.0)]);
    assert_eq!(fastest_by(&t, Metric::Latency), "candle");
    assert_eq!(fastest_by(&t, Metric::Throughput), "burn");
}

#[test]
fn ties_go_to_the_first_name() {
    let t = table(&[("ort", 1.0), ("burn", 1.0), ("candle", 1.0)]);
    assert_eq!(fastest_by(&t, Metric::Latency), "burn");
    assert_eq!(fastest_by(&t, Metric::Throughput), "burn");
    let zeros = table(&[("b", -0.0), ("a", 0.0)]);
    assert_eq!(fastest_by(&zeros, Metric::Latency), "a");
}

#[test]
fn no_engine_no_fastest() {
    assert_eq!(fastest_by(&table(&[]), Metric::Latency), "");
    assert_eq!(fastest_by(&table(&[("x", f64::NAN)]), Metric::Latency), "x");
}

#[test]
fn pairs_come_in_order() {
    assert_eq!(unordered_pairs(0), vec![]);
    assert_eq!(unordered_pairs(1), vec![]);
    assert_eq!(
        unordered_pairs(4),
        vec![(0, 1), (0, 2), (0, 3), (1, 2), (1, 3), (2, 3)]
    );
}

#[test]
fn latency_ratios_favour_the_faster_engine() {
    let samples = vec![nums(&[1.0, 2.0, 1.0]), nums(&[2.0, 4.0, 3.0])];
    let r = pairwise(&names(&["a", "b"]), &samples, Metric::Latency, &div, &blend, &minus);
    assert_eq!(r.len(), 1);
    assert_eq!(r[0].a, "a");
    assert_eq!(r[0].b, "b");
    assert_eq!(val(r[0].speedup_x.median), 2.0);
    assert_eq!(val(r[0].speedup_x.p75), 2.5);
    assert_eq!(r[0].speedup_x.n, 3);
    assert!(r[0].distinguishable);
    assert_eq!(r[0].faster, "a");
}

#[test]
fn throughput_ratios_favour_the_larger_rate() {
    let samples = vec![nums(&[100.0, 100.0]), nums(&[200.0, 400.0])];
    let r = pairwise(&names(&["a", "b"]), &samples, Metric::Throughput, &div, &blend, &minus);
    assert_eq!(val(r[0].speedup_x.median), 0.375);
    assert!(r[0].distinguishable);
    assert_eq!(r[0].faster, "b");
}

#[test]
fn overlapping_ratios_are_a_tie() {
    let samples = vec![
        nums(&[1.0, 2.0]),
        nums(&[2.0, 1.0]),
        nums(&[1.0, 2.0]),
    ];
    let r = pairwise(&names(&["a", "b", "c"]), &samples, Metric::Latency, &div, &blend, &minus);
    assert_eq!(r.len(), 3);
    assert_eq!((r[1].a.as_str(), r[1].b.as_str()), ("a", "c"));
    assert!(!r[0].distinguishable);
    assert_eq!(r[0].faster, "tie");
    assert_eq!(val(r[1].speedup_x.median), 1.0);
    assert_eq!(r[1].faster, "tie");
}

#[test]
fn ratios_that_are_not_numbers_are_refused() {
    let inf = f64::INFINITY;
    let bad = vec![nums(&[inf, inf]), nums(&[inf, inf])];
    let two = names(&["a", "b"]);
    assert!(checked_pairwise(&two, &bad, Metric::Latency, &div, &blend, &minus).is_none());
    let lone = vec![nums(&[inf]), nums(&[inf])];
    let r = checked_pairwise(&two, &lone, Metric::Latency, &div, &blend, &minus).unwrap();
    assert!(r[0].speedup_x.median.is_nan());
    assert_eq!(r[0].faster, "tie");
    let none = vec![nums(&[1.0]), nums(&[0.0])];
    let s = checked_pairwise(&two, &none, Metric::Throughput, &div, &blend, &minus).unwrap();
    assert_eq!(s[0].speedup_x.n, 0);
    assert_eq!(val(s[0].speedup_x.median), 0.0);
    assert_eq!(s[0].faster, "b");
}

#[test]
fn medians_compare_when_they_are_numbers() {
    assert!(is_comparable(&table(&[])));
    assert!(is_comparable(&table(&[("a", f64::NAN)])));
    assert!(is_comparable(&table(&[("a", 1.0), ("b", f64::INFINITY)])));
    assert!(!is_comparable(&table(&[("a", 1.0), ("b", f64::NAN)])));
}

#[test]
fn exchanging_engines_keeps_the_ratios() {
    let p = nums(&[1.0, 2.0, 1.5]);
    let q = nums(&[2.0, 3.0, 4.0]);
    let l = pairwise(
        &names(&["x", "y"]),
        &vec![p.clone(), q.clone()],
        Metric::Latency,
        &div,
        &blend,
        &minus,
    );
    let t = pairwise(&names(&["y", "x"]), &vec![q, p], Metric::Throughput, &div, &blend, &minus);
    assert_eq!(l[0].speedup_x, t[0].speedup_x);
    assert_eq!(l[0].distinguishable, t[0].distinguishable);
    assert_eq!(l[0].faster, "x");
    assert_eq!(t[0].faster, "y");
}

use inference_bench::num::Num;
use inference_bench::stats::{
    agg, decide, is_sortable, percentile, rank, sort_samples, zip_ratio, Agg, Rank,
};

fn num(x: f64) -> Num {
    Num { bits: x.to_bits() }
}

fn val(x: Num) -> f64 {
    f64::from_bits(x.bits)
}

fn nums(v: &[f64]) -> Vec<Num> {
    v.iter().map(|x| num(*x)).collect()
}

fn vals(v: &[Num]) -> Vec<f64> {
    v.iter().map(|x| val(*x)).collect()
}

fn blend(lo: Num, hi: Num, k: Rank) -> Num {
    let place = k.percent as f64 / 100.0 * k.last as f64;
    num(val(lo) + (place - k.lo as f64) * (val(hi) - val(lo)))
}

fn minus(a: Num, b: Num) -> Num {
    num(val(a) - val(b))
}

fn div(a: Num, b: Num) -> Num {
    num(val(a) / val(b))
}

#[test]
fn numbers_compare_like_floats() {
    let xs = [
        f64::NEG_INFINITY,
        f64::MIN,
        -1.5,
        -f64::MIN_POSITIVE,
        -5e-324,
        -0.0,
        0.0,
        5e-324,
        f64::MIN_POSITIVE,
        0.1,
        1.0,
        1.0000000000000002,
        f64::MAX,
        f64::INFINITY,
        f64::NAN,
        -f64::NAN,
    ];
    for a in xs {
        for b in xs {
            assert_eq!(num(a).less(num(b)), a < b, "{a} < {b}");
        }
        assert_eq!(num(a).is_nan(), a.is_nan());
        assert_eq!(num(a).is_positive(), a > 0.0);
    }
}

#[test]
fn sorting_matches_the_stable_sort() {
    let v = [3.0, -0.0, 1.5, 0.0, -2.0, 1.5, 7.25, -0.0];
    let mut expected = v.to_vec();
    expected.sort_by(|a, b| a.partial_cmp(b).unwrap());
    let got = sort_samples(&nums(&v));
    let bits: Vec<u64> = expected.iter().map(|x| x.to_bits()).collect();
    let got_bits: Vec<u64> = got.iter().map(|x| x.bits).collect();
    assert_eq!(got_bits, bits);
    assert!(sort_samples(&Vec::new()).is_empty());
    assert_eq!(sort_samples(&vec![num(f64::NAN)]).len(), 1);
}

#[test]
fn ranks_are_rounded_both_ways() {
    assert_eq!(rank(50, 80), Rank { percent: 50, last: 79, lo: 39, hi: 40 });
    assert_eq!(rank(95, 200), Rank { percent: 95, last: 199, lo: 189, hi: 190 });
    assert_eq!(rank(99, 200), Rank { percent: 99, last: 199, lo: 197, hi: 198 });
    assert_eq!(rank(25, 5), Rank { percent: 25, last: 4, lo: 1, hi: 1 });
    assert_eq!(rank(0, 9).lo, 0);
    assert_eq!(rank(100, 9).hi, 8);
    assert_eq!(rank(700, 1), Rank { percent: 700, last: 0, lo: 0, hi: 0 });
}

#[test]
fn ranks_match_floating_point() {
    assert_eq!(rank(7, 101), Rank { percent: 7, last: 100, lo: 7, hi: 8 });
    for p in 0u64..=100 {
        for n in 1usize..2000 {
            let place = p as f64 / 100.0 * (n - 1) as f64;
            let r = rank(p, n);
            assert_eq!(r.lo, place.floor() as usize);
            assert_eq!(r.hi, place.ceil() as usize);
        }
    }
}

#[test]
fn percentiles_interpolate() {
    assert_eq!(val(percentile(&Vec::new(), 50, &blend)), 0.0);
    assert_eq!(val(percentile(&nums(&[4.0]), 75, &blend)), 4.0);
    assert_eq!(val(percentile(&nums(&[1.0, 2.0]), 50, &blend)), 1.5);
    assert_eq!(val(percentile(&nums(&[1.0, 2.0, 10.0]), 50, &blend)), 2.0);
    assert_eq!(val(percentile(&nums(&[1.0, 2.0, 10.0, 20.0]), 25, &blend)), 1.75);
    assert_eq!(val(percentile(&nums(&[1.0, 2.0, 10.0, 20.0]), 0, &blend)), 1.0);
    assert_eq!(val(percentile(&nums(&[1.0, 2.0, 10.0, 20.0]), 100, &blend)), 20.0);
}

#[test]
fn aggregates_hold_quartiles() {
    let a = agg(&nums(&[20.0, 1.0, 10.0, 2.0]), &blend, &minus);
    assert_eq!(val(a.median), 6.0);
    assert_eq!(val(a.p25), 1.75);
    assert_eq!(val(a.p75), 12.5);
    assert_eq!(val(a.iqr), 10.75);
    assert_eq!(a.n, 4);
    let none = agg(&Vec::new(), &blend, &minus);
    assert_eq!(val(none.median), 0.0);
    assert_eq!(none.n, 0);
}

#[test]
fn ratios_skip_trials_without_a_positive_denominator() {
    let r = zip_ratio(
        &nums(&[6.0, 5.0, 8.0, 9.0, 1.0]),
        &nums(&[3.0, 0.0, 4.0, -1.0]),
        &div,
    );
    assert_eq!(vals(&r), vec![2.0, 2.0]);
    let nan = zip_ratio(&nums(&[1.0]), &nums(&[f64::NAN]), &div);
    assert!(nan.is_empty());
}

fn spread(p25: f64, p75: f64) -> Agg {
    Agg { median: num(1.0), p25: num(p25), p75: num(p75), iqr: num(p75 - p25), n: 10 }
}

#[test]
fn verdicts_follow_the_quartiles() {
    assert_eq!(decide(&spread(1.1, 1.3), "a", "b"), (true, "a".to_string()));
    assert_eq!(decide(&spread(0.7, 0.9), "a", "b"), (true, "b".to_string()));
    assert_eq!(decide(&spread(1.1, 1.3), "b", "a"), (true, "b".to_string()));
    assert_eq!(decide(&spread(0.7, 0.9), "b", "a"), (true, "a".to_string()));
    assert_eq!(decide(&spread(0.9, 1.1), "a", "b"), (false, "tie".to_string()));
    assert_eq!(decide(&spread(1.0, 1.3), "a", "b"), (false, "tie".to_string()));
    assert_eq!(decide(&spread(0.8, 1.0), "a", "b"), (false, "tie".to_string()));
    assert_eq!(decide(&spread(f64::NAN, f64::NAN), "a", "b").0, false);
}

#[test]
fn numbers_can_be_sorted() {
    assert!(is_sortable(&Vec::new()));
    assert!(is_sortable(&nums(&[f64::NAN])));
    assert!(is_sortable(&nums(&[1.0, f64::NEG_INFINITY])));
    assert!(!is_sortable(&nums(&[1.0, f64::NAN])));
}

#[test]
fn aggregates_forget_the_order() {
    let a = agg(&nums(&[3.0, 1.0, 2.0, 9.0]), &blend, &minus);
    let b = agg(&nums(&[9.0, 2.0, 3.0, 1.0]), &blend, &minus);
    assert_eq!(a, b);
    let figures = |v: &[f64]| {
        let r = agg(&nums(v), &blend, &minus);
        [val(r.median), val(r.p25), val(r.p75), val(r.iqr)]
    };
    assert_eq!(figures(&[0.0, -0.0, 2.0, -0.0]), figures(&[-0.0, 2.0, -0.0, 0.0]));
    let left = vals(&sort_samples(&nums(&[0.0, 5.0, -0.0, -1.0])));
    assert_eq!(left, vals(&sort_samples(&nums(&[-0.0, -1.0, 0.0, 5.0]))));
}

#[test]
fn percentiles_ascend_within_the_samples() {
    let sorted = nums(&[1.0, 1.5, 4.0, 8.0, 8.0, 30.0]);
    let mut before = 1.0;
    for p in 0..=100 {
        let x = val(percentile(&sorted, p, &blend));
        assert!(before <= x && x <= 30.0);
        before = x;
    }
    assert_eq!(before, 30.0);
}

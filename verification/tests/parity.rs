use inference_bench::num::Num;
use inference_bench::parity::{least_of, parity};

fn num(x: f32) -> Num {
    Num { bits: (x as f64).to_bits() }
}

fn val(x: Num) -> f32 {
    f64::from_bits(x.bits) as f32
}

fn same(a: &f32, b: &f32) -> Num {
    num(1.0 - (a - b).abs())
}

#[test]
fn the_least_is_found() {
    assert_eq!(val(least_of(&vec![num(0.9), num(0.2), num(0.5)])), 0.2);
    assert_eq!(val(least_of(&Vec::new())), f32::MAX);
    assert_eq!(val(least_of(&vec![num(f32::NAN), num(0.5), num(f32::NAN)])), 0.5);
    let folded = [0.9f32, f32::NAN, -0.5].iter().copied().fold(f32::MAX, f32::min);
    assert_eq!(val(least_of(&vec![num(0.9), num(f32::NAN), num(-0.5)])), folded);
}

#[test]
fn two_engines_are_needed() {
    assert!(parity(&vec![vec![1.0f32]], &same).is_none());
    assert!(parity(&Vec::new(), &same).is_none());
}

#[test]
fn agreement_passes() {
    let p = parity(&vec![vec![1.0f32, 2.0], vec![1.0, 2.0], vec![1.0, 2.0]], &same).unwrap();
    assert_eq!(p.mins.len(), 3);
    assert_eq!(val(p.worst), 1.0);
    assert!(p.pass);
}

#[test]
fn the_worst_pair_fails_the_gate() {
    let p = parity(&vec![vec![1.0f32, 2.0], vec![1.0, 2.0], vec![1.0, 2.5]], &same).unwrap();
    assert_eq!(val(p.mins[0]), 1.0);
    assert_eq!(val(p.mins[1]), 0.5);
    assert_eq!(val(p.worst), 0.5);
    assert!(!p.pass);
}

#[test]
fn the_threshold_itself_fails() {
    let at = |_a: &f32, _b: &f32| num(0.999);
    assert!(!parity(&vec![vec![0.0f32], vec![0.0]], &at).unwrap().pass);
    let above = |_a: &f32, _b: &f32| num(0.99900013);
    assert!(parity(&vec![vec![0.0f32], vec![0.0]], &above).unwrap().pass);
}

#[test]
fn extra_sentences_are_not_compared() {
    let p = parity(&vec![vec![1.0f32], vec![1.0, 9.0]], &same).unwrap();
    assert_eq!(val(p.worst), 1.0);
}

#[test]
fn what_is_not_a_number_fails() {
    let p = parity(&vec![vec![1.0f32, f32::NAN], vec![1.0, 2.0]], &same).unwrap();
    assert_eq!(val(p.worst), 1.0);
    assert!(!p.pass);
    let q = parity(&vec![vec![f32::NAN], vec![1.0], vec![1.0]], &same).unwrap();
    assert_eq!(val(q.mins[2]), 1.0);
    assert!(!q.pass);
}

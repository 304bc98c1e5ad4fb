use inference_bench::rounding::{find_place, round_nearest, PLACE, SIGNIFICANT};

#[test]
fn integers_round_like_floats() {
    let big = SIGNIFICANT as u128;
    assert_eq!(round_nearest(0), 0);
    assert_eq!(round_nearest(big - 1), big - 1);
    assert_eq!(round_nearest(big), big);
    assert_eq!(round_nearest(big + 1), big);
    assert_eq!(round_nearest(big + 2), big + 2);
    assert_eq!(round_nearest(big + 3), big + 4);
    assert_eq!(round_nearest(4 * big - 1), 4 * big);
    let mut n: u128 = 12345;
    for step in 0u128..20000 {
        n = n.wrapping_mul(25214903917).wrapping_add(11 + step) % (1 << 122);
        for shift in [0u32, 20, 50, 61, 67] {
            let m = n >> shift;
            assert_eq!(round_nearest(m), (m as f64) as u128, "{m}");
        }
    }
}

#[test]
fn places_match_floating_point() {
    let lasts = [
        0u64, 1, 2, 3, 7, 99, 100, 199, 1000, 12345, 999_999_937, 0x1f_ffff_ffff_ffff, 0x10_0000_0000_0001,
        0x15_5555_5555_5555,
    ];
    for percent in 0u64..=100 {
        for last in lasts {
            let place = percent as f64 / 100.0 * last as f64 * PLACE as f64;
            assert_eq!(find_place(percent, last), place as u128, "{percent} of {last}");
        }
    }
}

#[test]
fn places_grow_with_the_percentage() {
    for last in [0u64, 1, 100, 101, 1999, SIGNIFICANT - 1] {
        assert_eq!(find_place(0, last), 0);
        assert_eq!(find_place(100, last), last as u128 * PLACE as u128);
        for percent in 0u64..100 {
            assert!(find_place(percent, last) <= find_place(percent + 1, last));
        }
    }
}

#[test]
fn places_are_close_to_the_exact_ones() {
    for percent in 0u64..=100 {
        let exact = percent as u128 * 100 * PLACE as u128;
        let got = 100 * find_place(percent, 100);
        assert!(got.abs_diff(exact) << 50 <= exact);
    }
    assert_ne!(find_place(7, 100), 7 * PLACE as u128);
}

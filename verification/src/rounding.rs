//! Places among samples, rounded as double precision arithmetic rounds them.
//!
//! The place of a percentile is `percent / 100.0 * last`, a quotient and a product that are each
//! rounded to fifty-three significant bits. For whole percentages and places that fit in that
//! many bits both can be had exactly with integers.
use vstd::arithmetic::div_mod::{lemma_div_denominator, lemma_fundamental_div_mod, lemma_mod_bound};
use vstd::arithmetic::power2::{lemma2_to64, lemma_pow2_adds, lemma_pow2_pos, pow2};
use vstd::prelude::*;

verus! {

/// Integers below this fit in the significant bits.
pub const SIGNIFICANT: u64 = 0x20_0000_0000_0000;

/// The unit in which places are counted: places are multiples of its inverse.
pub const PLACE: u64 = 0x800_0000_0000_0000;

/// How many bits an integer has beyond the significant ones.
pub open spec fn spare_bits(n: nat) -> nat
    decreases n,
{
    if n < SIGNIFICANT {
        0
    } else {
        1 + spare_bits(n / 2)
    }
}

/// An integer rounded to a multiple of a unit, half way to the even one.
pub open spec fn rounded(n: nat, unit: nat) -> nat {
    let q = n / unit;
    let rest = n % unit;
    if 2 * rest > unit || (2 * rest == unit && q % 2 == 1) {
        (q + 1) * unit
    } else {
        q * unit
    }
}

/// An integer rounded to the significant bits.
pub open spec fn nearest(n: nat) -> nat {
    rounded(n, pow2(spare_bits(n)))
}

/// A power of two that makes an integer of full width of a percentage as a fraction.
pub open spec fn percent_scale(percent: nat) -> nat {
    if percent >= 100 {
        0x10_0000_0000_0000
    } else if percent >= 50 {
        0x20_0000_0000_0000
    } else if percent >= 25 {
        0x40_0000_0000_0000
    } else if percent >= 13 {
        0x80_0000_0000_0000
    } else if percent >= 7 {
        0x100_0000_0000_0000
    } else if percent >= 4 {
        0x200_0000_0000_0000
    } else if percent >= 2 {
        0x400_0000_0000_0000
    } else {
        0x800_0000_0000_0000
    }
}

/// What is left from the scale of a percentage to the unit of places.
pub open spec fn percent_lift(percent: nat) -> nat {
    if percent >= 100 {
        128
    } else if percent >= 50 {
        64
    } else if percent >= 25 {
        32
    } else if percent >= 13 {
        16
    } else if percent >= 7 {
        8
    } else if percent >= 4 {
        4
    } else if percent >= 2 {
        2
    } else {
        1
    }
}

/// A percentage as a fraction, rounded to the significant bits, in units of its scale.
pub open spec fn percent_bits(percent: nat) -> nat {
    (2 * percent * percent_scale(percent) + 100) / 200
}

/// The place of a percentile between zero and `last`, in units of `PLACE`.
pub open spec fn place(percent: nat, last: nat) -> nat {
    nearest(percent_bits(percent) * last) * percent_lift(percent)
}

proof fn lemma_spare(n: nat)
    ensures
        n < SIGNIFICANT * pow2(spare_bits(n)),
        spare_bits(n) > 0 ==> 2 * n >= SIGNIFICANT * pow2(spare_bits(n)),
    decreases n,
{
    lemma2_to64();
    if n >= SIGNIFICANT {
        let h = n / 2;
        let s = spare_bits(h);
        lemma_spare(h);
        lemma_pow2_adds(s, 1);
        let p = pow2(s);
        assert(pow2(s + 1) == p * 2);
        assert(SIGNIFICANT * (p * 2) == 2 * (SIGNIFICANT * p)) by (nonlinear_arith);
        if s == 0 {
            assert(p == 1);
        }
    } else {
        assert(SIGNIFICANT * 1 == SIGNIFICANT);
    }
}

proof fn lemma_rounded(n: nat, unit: nat)
    requires
        unit > 0,
    ensures
        2 * rounded(n, unit) <= 2 * n + unit,
        2 * n <= 2 * rounded(n, unit) + unit,
        n % unit == 0 ==> rounded(n, unit) == n,
{
    let q = n / unit;
    let rest = n % unit;
    lemma_fundamental_div_mod(n as int, unit as int);
    lemma_mod_bound(n as int, unit as int);
    assert((q + 1) * unit == q * unit + unit && q * unit == unit * q) by (nonlinear_arith);
}

/// Rounding to the significant bits moves an integer by no more than its share of one in
/// twice the significant range.
pub proof fn nearest_is_near(n: nat)
    ensures
        0x20_0000_0000_0000 * nearest(n) <= 0x20_0000_0000_0001 * n,
        0x1f_ffff_ffff_ffff * n <= 0x20_0000_0000_0000 * nearest(n),
{
    lemma_spare(n);
    let s = spare_bits(n);
    let u = pow2(s);
    lemma_pow2_pos(s);
    lemma2_to64();
    lemma_rounded(n, u);
    let r = nearest(n);
    if s == 0 {
        assert(u == 1);
        assert(n % 1 == 0);
    } else {
        assert(2 * n >= 0x20_0000_0000_0000 * u);
    }
}

/// Rounds an integer to the significant bits.
pub fn round_nearest(n: u128) -> (r: u128)
    requires
        n < 0x8_0000_0000_0000_0000_0000_0000_0000,
    ensures
        r == nearest(n as nat),
{
    let mut unit: u128 = 1;
    let mut q: u128 = n;
    let ghost mut bits: nat = 0;
    proof {
        lemma2_to64();
        assert(n as nat / 1 == n);
    }
    while q >= SIGNIFICANT as u128
        invariant
            n < 0x8_0000_0000_0000_0000_0000_0000_0000,
            unit == pow2(bits),
            unit > 0,
            unit == 1 || q > 0,
            q == n as nat / unit as nat,
            spare_bits(n as nat) == bits + spare_bits(q as nat),
        decreases q,
    {
        proof {
            lemma_fundamental_div_mod(n as int, unit as int);
            lemma_mod_bound(n as int, unit as int);
            assert(unit * 0x20_0000_0000_0000 <= n) by (nonlinear_arith)
                requires
                    n >= unit * q,
                    q >= 0x20_0000_0000_0000,
                    unit >= 0,
            ;
            lemma_div_denominator(n as int, unit as int, 2);
            lemma2_to64();
            lemma_pow2_adds(bits, 1);
        }
        q = q / 2;
        unit = unit * 2;
        proof {
            bits = bits + 1;
        }
    }
    proof {
        lemma_fundamental_div_mod(n as int, unit as int);
        lemma_mod_bound(n as int, unit as int);
        assert(unit * q <= n && q * unit == unit * q) by (nonlinear_arith)
            requires
                n >= unit * q,
        ;
        assert((q + 1) * unit == q * unit + unit) by (nonlinear_arith);
        assert(unit <= n || q == 0) by (nonlinear_arith)
            requires
                n >= unit * q,
                q >= 0,
                unit >= 0,
        ;
    }
    let rest: u128 = n % unit;
    if 2 * rest > unit || (2 * rest == unit && q % 2 == 1) {
        (q + 1) * unit
    } else {
        q * unit
    }
}

proof fn lemma_percent_bits(percent: nat)
    requires
        1 <= percent <= 100,
    ensures
        0x10_0000_0000_0000 <= percent_bits(percent) <= SIGNIFICANT,
        100 * percent_bits(percent) <= percent * percent_scale(percent) + 50,
        percent * percent_scale(percent) <= 100 * percent_bits(percent) + 50,
        percent_scale(percent) * percent_lift(percent) == PLACE,
        0 < percent_lift(percent) <= 128,
        percent < 100 ==> percent_bits(percent) < SIGNIFICANT,
        percent == 100 ==> percent_bits(percent) == 0x10_0000_0000_0000,
{
    let scale = percent_scale(percent);
    let a = percent * scale;
    assert(2 * percent * scale == 2 * a) by (nonlinear_arith)
        requires
            a == percent * scale,
    ;
    if percent >= 100 {
        assert(a == 0x10_0000_0000_0000 * percent) by (nonlinear_arith)
            requires
                a == percent * scale,
                scale == 0x10_0000_0000_0000,
        ;
    } else if percent >= 50 {
        assert(a == 0x20_0000_0000_0000 * percent) by (nonlinear_arith)
            requires
                a == percent * scale,
                scale == 0x20_0000_0000_0000,
        ;
    } else if percent >= 25 {
        assert(a == 0x40_0000_0000_0000 * percent) by (nonlinear_arith)
            requires
                a == percent * scale,
                scale == 0x40_0000_0000_0000,
        ;
    } else if percent >= 13 {
        assert(a == 0x80_0000_0000_0000 * percent) by (nonlinear_arith)
            requires
                a == percent * scale,
                scale == 0x80_0000_0000_0000,
        ;
    } else if percent >= 7 {
        assert(a == 0x100_0000_0000_0000 * percent) by (nonlinear_arith)
            requires
                a == percent * scale,
                scale == 0x100_0000_0000_0000,
        ;
    } else if percent >= 4 {
        assert(a == 0x200_0000_0000_0000 * percent) by (nonlinear_arith)
            requires
                a == percent * scale,
                scale == 0x200_0000_0000_0000,
        ;
    } else if percent >= 2 {
        assert(a == 0x400_0000_0000_0000 * percent) by (nonlinear_arith)
            requires
                a == percent * scale,
                scale == 0x400_0000_0000_0000,
        ;
    } else {
        assert(a == 0x800_0000_0000_0000 * percent) by (nonlinear_arith)
            requires
                a == percent * scale,
                scale == 0x800_0000_0000_0000,
        ;
    }
}

/// A place is close to the exact one: it differs by no more than a tiny share of it.
pub proof fn place_is_close(percent: nat, last: nat)
    requires
        percent <= 100,
    ensures
        0x4_0000_0000_0000 * (100 * place(percent, last)) <= 0x4_0000_0000_0001 * (percent * last
            * PLACE),
        0x3_ffff_ffff_ffff * (percent * last * PLACE) <= 0x4_0000_0000_0000 * (100 * place(
            percent,
            last,
        )),
{
    if percent == 0 {
        assert(percent_bits(0) == 0);
        assert(0 * last == 0);
        assert(nearest(0) == 0) by {
            lemma2_to64();
            assert(spare_bits(0) == 0);
        }
        assert(0 * last * PLACE == 0) by (nonlinear_arith);
    } else {
        lemma_percent_bits(percent);
        let m = percent_bits(percent);
        let a = percent * percent_scale(percent);
        let n = m * last;
        let r = nearest(n);
        let lift = percent_lift(percent);
        nearest_is_near(n);
        assert(a >= 450_359_962_737_049_550);
        let x = a * last;
        assert(100 * n <= x + 50 * last && x <= 100 * n + 50 * last) by (nonlinear_arith)
            requires
                n == m * last,
                x == a * last,
                100 * m <= a + 50,
                a <= 100 * m + 50,
                0 <= last,
        ;
        assert(x >= 450_359_962_737_049_550 * last) by (nonlinear_arith)
            requires
                x == a * last,
                a >= 450_359_962_737_049_550,
                0 <= last,
        ;
        let near = 0x20_0000_0000_0000 * (100 * r);
        assert(450_359_962_737_049_650 * last <= 7 * x);
        assert(near <= 0x20_0000_0000_0001 * (100 * n));
        assert(0x20_0000_0000_0001 * (100 * n) <= 0x20_0000_0000_0001 * x + 0x20_0000_0000_0001 * (
        50 * last));
        assert(near <= 0x20_0000_0000_0008 * x);
        assert(0x1f_ffff_ffff_ffff * (100 * n) <= near);
        assert(0x1f_ffff_ffff_ffff * x <= 0x1f_ffff_ffff_ffff * (100 * n) + 0x1f_ffff_ffff_ffff * (
        50 * last));
        assert(0x1f_ffff_ffff_fff8 * x <= near);
        let w = r * lift;
        assert(percent * last * PLACE == x * lift) by (nonlinear_arith)
            requires
                x == a * last,
                a == percent * percent_scale(percent),
                percent_scale(percent) * lift == PLACE,
        ;
        assert(0x4_0000_0000_0000 * (100 * w) <= 0x4_0000_0000_0001 * (x * lift)) by (nonlinear_arith)
            requires
                w == r * lift,
                0x4_0000_0000_0000 * (100 * r) <= 0x4_0000_0000_0001 * x,
                0 <= lift,
        ;
        assert(0x3_ffff_ffff_ffff * (x * lift) <= 0x4_0000_0000_0000 * (100 * w)) by (nonlinear_arith)
            requires
                w == r * lift,
                0x3_ffff_ffff_ffff * x <= 0x4_0000_0000_0000 * (100 * r),
                0 <= lift,
        ;
    }
}

/// Places grow with the percentage, from zero up to `last`.
pub proof fn places_grow(percent: nat, larger: nat, last: nat)
    requires
        percent <= larger <= 100,
        last < SIGNIFICANT,
    ensures
        place(percent, last) <= place(larger, last) <= last * PLACE,
        place(0, last) == 0,
        place(100, last) == last * PLACE,
{
    place_is_close(0, last);
    lemma_whole(last);
    assert(0 * last * PLACE == 0) by (nonlinear_arith);
    lemma_ordered(percent, larger, last);
    lemma_ordered(larger, 100, last);
}

proof fn lemma_ordered(percent: nat, larger: nat, last: nat)
    requires
        percent <= larger <= 100,
    ensures
        place(percent, last) <= place(larger, last),
{
    if percent < larger {
        place_is_close(percent, last);
        place_is_close(larger, last);
        let u = last * PLACE;
        assert(percent * last * PLACE == percent * u && larger * last * PLACE == larger * u)
            by (nonlinear_arith)
            requires
                u == last * PLACE,
        ;
        assert(0x4_0000_0000_0001 * (percent * u) <= 0x3_ffff_ffff_ffff * (larger * u))
            by (nonlinear_arith)
            requires
                percent + 1 <= larger,
                percent < 100,
                0 <= u,
        ;
    }
}

proof fn lemma_whole(last: nat)
    requires
        last < SIGNIFICANT,
    ensures
        place(100, last) == last * PLACE,
{
    lemma_percent_bits(100);
    let unit: nat = 0x10_0000_0000_0000;
    let n = unit * last;
    let s = spare_bits(n);
    lemma_spare(n);
    lemma_pow2_pos(s);
    lemma2_to64();
    lemma_pow2_adds(26, 26);
    lemma_pow2_adds(26, 27);
    assert(pow2(52) == unit);
    assert(pow2(53) == SIGNIFICANT);
    if s > 52 {
        lemma_pow2_adds(53, (s - 53) as nat);
        lemma_pow2_pos((s - 53) as nat);
        assert(pow2(s) >= SIGNIFICANT) by (nonlinear_arith)
            requires
                pow2(s) == SIGNIFICANT * pow2((s - 53) as nat),
                pow2((s - 53) as nat) >= 1,
        ;
        assert(2 * n < SIGNIFICANT * pow2(s)) by (nonlinear_arith)
            requires
                n == unit * last,
                2 * unit == SIGNIFICANT,
                last < SIGNIFICANT,
                pow2(s) >= SIGNIFICANT,
        ;
    } else {
        let d = (52 - s) as nat;
        lemma_pow2_adds(s, d);
        lemma_pow2_pos(d);
        let u = pow2(s);
        assert(n == u * (pow2(d) * last)) by (nonlinear_arith)
            requires
                n == unit * last,
                unit == u * pow2(d),
        ;
        vstd::arithmetic::div_mod::lemma_mod_multiples_basic((pow2(d) * last) as int, u as int);
        assert((pow2(d) * last) * u == u * (pow2(d) * last)) by (nonlinear_arith);
        assert(n % u == 0);
        lemma_rounded(n, u);
        assert(nearest(n) == n);
    }
    assert(unit * last * 128 == last * PLACE) by (nonlinear_arith)
        requires
            unit == 0x10_0000_0000_0000,
            PLACE == 0x800_0000_0000_0000,
    ;
}

/// Finds the place of a percentile between zero and `last`, in units of `PLACE`.
pub fn find_place(percent: u64, last: u64) -> (r: u128)
    requires
        percent <= 100,
        last < SIGNIFICANT,
    ensures
        r == place(percent as nat, last as nat),
{
    let (scale, lift): (u128, u128) = if percent >= 100 {
        (0x10_0000_0000_0000, 128)
    } else if percent >= 50 {
        (0x20_0000_0000_0000, 64)
    } else if percent >= 25 {
        (0x40_0000_0000_0000, 32)
    } else if percent >= 13 {
        (0x80_0000_0000_0000, 16)
    } else if percent >= 7 {
        (0x100_0000_0000_0000, 8)
    } else if percent >= 4 {
        (0x200_0000_0000_0000, 4)
    } else if percent >= 2 {
        (0x400_0000_0000_0000, 2)
    } else {
        (0x800_0000_0000_0000, 1)
    };
    assert(0 <= 2 * percent * scale <= 200 * scale) by (nonlinear_arith)
        requires
            percent <= 100,
            0 <= scale,
    ;
    let bits: u128 = (2 * percent as u128 * scale + 100) / 200;
    proof {
        if percent == 0 {
            assert(percent_bits(0) == 0);
        } else {
            lemma_percent_bits(percent as nat);
        }
        assert(bits == percent_bits(percent as nat));
        assert(bits * last <= 0x20_0000_0000_0000 * 0x20_0000_0000_0000) by (nonlinear_arith)
            requires
                0 <= bits <= 0x20_0000_0000_0000,
                0 <= last <= 0x20_0000_0000_0000,
        ;
        nearest_is_near((bits * last) as nat);
    }
    let near: u128 = round_nearest(bits * last as u128);
    assert(0 <= near * lift <= 0x800_0000_0000_0000_0000_0000_0000 * 128) by (nonlinear_arith)
        requires
            0 <= near <= 0x800_0000_0000_0000_0000_0000_0000,
            0 <= lift <= 128,
    ;
    near * lift
}

/// A place lies within a hundredth of the exact one, `percent` hundredths of the way to `last`.
/// Between two whole places it is where the exact one is.
pub proof fn place_is_within_a_hundredth(percent: nat, last: nat)
    requires
        percent <= 100,
        percent * last < 0x4_0000_0000_0000,
    ensures
        (percent * last - 1) * PLACE < 100 * place(percent, last),
        100 * place(percent, last) < (percent * last + 1) * PLACE,
{
    place_is_close(percent, last);
    let e = percent * last;
    let p = place(percent, last);
    assert(percent * last * PLACE == 0x800_0000_0000_0000 * e);
    assert((e - 1) * PLACE == 0x800_0000_0000_0000 * e - 0x800_0000_0000_0000);
    assert((e + 1) * PLACE == 0x800_0000_0000_0000 * e + 0x800_0000_0000_0000);
    assert(0x4_0000_0000_0000 * (100 * p) <= 0x4_0000_0000_0001 * (0x800_0000_0000_0000 * e));
    assert(0x3_ffff_ffff_ffff * (0x800_0000_0000_0000 * e) <= 0x4_0000_0000_0000 * (100 * p));
}

proof fn lemma_short_is_exact(m: nat)
    requires
        m < SIGNIFICANT,
    ensures
        nearest(0x8_0000_0000_0000 * m) == 0x8_0000_0000_0000 * m,
{
    let unit: nat = 0x8_0000_0000_0000;
    let n = unit * m;
    let s = spare_bits(n);
    lemma_spare(n);
    lemma_pow2_pos(s);
    lemma2_to64();
    lemma_pow2_adds(26, 25);
    lemma_pow2_adds(26, 26);
    assert(pow2(51) == unit);
    assert(pow2(52) == 2 * unit);
    if s > 51 {
        lemma_pow2_adds(52, (s - 52) as nat);
        lemma_pow2_pos((s - 52) as nat);
        assert(pow2(s) >= 2 * unit) by (nonlinear_arith)
            requires
                pow2(s) == (2 * unit) * pow2((s - 52) as nat),
                pow2((s - 52) as nat) >= 1,
        ;
        assert(2 * n < SIGNIFICANT * pow2(s)) by (nonlinear_arith)
            requires
                n == unit * m,
                m < SIGNIFICANT,
                pow2(s) >= 2 * unit,
                unit > 0,
        ;
    } else {
        let d = (51 - s) as nat;
        lemma_pow2_adds(s, d);
        let u = pow2(s);
        assert(n == (pow2(d) * m) * u) by (nonlinear_arith)
            requires
                n == unit * m,
                unit == u * pow2(d),
        ;
        vstd::arithmetic::div_mod::lemma_mod_multiples_basic((pow2(d) * m) as int, u as int);
        lemma_rounded(n, u);
    }
}

/// The places of quarters are exact.
pub proof fn quarters_are_exact(percent: nat, last: nat)
    requires
        percent <= 100,
        percent % 25 == 0,
        last < 0x8_0000_0000_0000,
    ensures
        100 * place(percent, last) == percent * last * PLACE,
{
    if percent == 0 {
        place_is_close(0, last);
        assert(0 * last * PLACE == 0) by (nonlinear_arith);
    } else {
        let m: nat = if percent == 75 {
            3 * last
        } else {
            2 * last
        };
        lemma_short_is_exact(m);
        let bits = percent_bits(percent);
        assert(percent == 25 || percent == 50 || percent == 75 || percent == 100);
        assert(bits * last == 0x8_0000_0000_0000 * m) by {
            if percent == 75 {
                assert(bits == 0x18_0000_0000_0000);
            } else {
                assert(bits == 0x10_0000_0000_0000);
            }
        }
        assert(percent * last * PLACE == 0x800_0000_0000_0000 * (percent * last));
    }
}

} // verus!

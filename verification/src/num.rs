//! Sixty-four bit IEEE 754 numbers, held as their bit patterns and compared as numbers.
//!
//! The library orders and selects measurements; it never computes with them. Callers that
//! do arithmetic convert with `to_bits` and `from_bits` and hand the operations in.
use vstd::arithmetic::power2::{lemma2_to64, lemma_pow2_adds, lemma_pow2_pos, pow2};
use vstd::prelude::*;

verus! {

/// Bit pattern with only the sign bit set.
pub const SIGN: u64 = 0x8000_0000_0000_0000;

/// Bit pattern of positive infinity; larger magnitudes are not numbers.
pub const INFINITY: u64 = 0x7ff0_0000_0000_0000;

/// Bit pattern of `1.0`.
pub const ONE: u64 = 0x3ff0_0000_0000_0000;

/// Number of significands that share one exponent.
pub const BINADE: u64 = 0x10_0000_0000_0000;

/// A measurement, as the bit pattern of a double precision number.
#[derive(Clone, Copy, Debug, PartialEq, Eq, Structural)]
pub struct Num {
    pub bits: u64,
}

/// The number that a magnitude (a pattern without its sign) stands for, counted in units of
/// the smallest positive double. Infinity comes out above every finite number.
pub open spec fn magnitude_value(magnitude: nat) -> nat {
    let exponent = magnitude / (BINADE as nat);
    let fraction = magnitude % (BINADE as nat);
    if exponent == 0 {
        fraction
    } else {
        (BINADE as nat + fraction) * pow2((exponent - 1) as nat)
    }
}

impl Num {
    /// The pattern without its sign.
    pub open spec fn magnitude(self) -> nat {
        if self.bits >= SIGN {
            (self.bits - SIGN) as nat
        } else {
            self.bits as nat
        }
    }

    /// Whether the pattern stands for no number.
    pub open spec fn nan(self) -> bool {
        self.magnitude() > INFINITY
    }

    /// An integer by which numbers are ordered: positive and negative zero share one key.
    pub open spec fn key(self) -> int {
        if self.bits >= SIGN {
            -(self.magnitude() as int)
        } else {
            self.magnitude() as int
        }
    }

    /// The number that the pattern stands for, in units of the smallest positive double.
    pub open spec fn value(self) -> int {
        if self.bits >= SIGN {
            -(magnitude_value(self.magnitude()) as int)
        } else {
            magnitude_value(self.magnitude()) as int
        }
    }

    /// Whether `self < other` holds of the numbers; it never does of a pattern that is not one.
    pub open spec fn below(self, other: Num) -> bool {
        !self.nan() && !other.nan() && self.key() < other.key()
    }

    /// Whether the pattern stands for no number.
    pub fn is_nan(self) -> (r: bool)
        ensures
            r == self.nan(),
    {
        if self.bits >= SIGN {
            self.bits - SIGN > INFINITY
        } else {
            self.bits > INFINITY
        }
    }

    /// The comparison `self < other` of two numbers.
    pub fn less(self, other: Num) -> (r: bool)
        ensures
            r == self.below(other),
    {
        if self.is_nan() || other.is_nan() {
            false
        } else if self.bits >= SIGN {
            if other.bits >= SIGN {
                other.bits < self.bits
            } else {
                self.bits - SIGN > 0 || other.bits > 0
            }
        } else {
            other.bits < SIGN && self.bits < other.bits
        }
    }

    /// The comparison `self > 0.0`.
    pub fn is_positive(self) -> (r: bool)
        ensures
            r == (Num { bits: 0 }).below(self),
    {
        (Num { bits: 0 }).less(self)
    }
}

proof fn lemma_magnitude_step(a: nat)
    ensures
        magnitude_value(a) < magnitude_value(a + 1),
{
    let b = BINADE as nat;
    let e = a / b;
    let f = a % b;
    if f + 1 < b {
        assert((a + 1) / b == e && (a + 1) % b == f + 1) by (nonlinear_arith)
            requires
                b == 0x10_0000_0000_0000,
                e == a / b,
                f == a % b,
                f + 1 < b,
        ;
        if e > 0 {
            let p = pow2((e - 1) as nat);
            lemma_pow2_pos((e - 1) as nat);
            assert((b + f) * p < (b + (f + 1)) * p) by (nonlinear_arith)
                requires
                    p > 0,
            ;
            assert(magnitude_value(a) == (b + f) * p);
            assert(magnitude_value(a + 1) == (b + (f + 1)) * p);
        }
    } else {
        assert((a + 1) / b == e + 1 && (a + 1) % b == 0) by (nonlinear_arith)
            requires
                b == 0x10_0000_0000_0000,
                e == a / b,
                f == a % b,
                f + 1 == b,
        ;
        lemma_pow2_pos(e);
        if e > 0 {
            let p = pow2((e - 1) as nat);
            lemma_pow2_pos((e - 1) as nat);
            lemma_pow2_adds((e - 1) as nat, 1);
            lemma2_to64();
            assert(pow2(e) == p * 2);
            assert((b + f) * p < (b + 0) * (p * 2)) by (nonlinear_arith)
                requires
                    f + 1 == b,
                    p > 0,
            ;
            assert(magnitude_value(a) == (b + f) * p);
            assert(magnitude_value(a + 1) == (b + 0) * pow2(e));
        } else {
            lemma2_to64();
            assert(magnitude_value(a + 1) == (b + 0) * pow2(0));
        }
    }
}

proof fn lemma_magnitude_monotone(a: nat, b: nat)
    requires
        a < b,
    ensures
        magnitude_value(a) < magnitude_value(b),
    decreases b,
{
    lemma_magnitude_step((b - 1) as nat);
    if a < b - 1 {
        lemma_magnitude_monotone(a, (b - 1) as nat);
    }
}

/// Comparing patterns is comparing the numbers they stand for: one number is below another
/// exactly when its value is smaller.
pub proof fn below_is_numeric(a: Num, b: Num)
    requires
        !a.nan(),
        !b.nan(),
    ensures
        a.below(b) <==> a.value() < b.value(),
{
    let m = a.magnitude();
    let n = b.magnitude();
    if m < n {
        lemma_magnitude_monotone(m, n);
    }
    if n < m {
        lemma_magnitude_monotone(n, m);
    }
    assert(magnitude_value(0) == 0);
    if m > 0 {
        lemma_magnitude_monotone(0, m);
    }
    if n > 0 {
        lemma_magnitude_monotone(0, n);
    }
}

/// A pattern is a sign, eleven bits of exponent and fifty-two of fraction. An exponent of all ones
/// with a fraction is no number. Otherwise the number grows by a factor of two with the exponent,
/// from the least one on, and has one whole part more than its fraction where the exponent is not
/// zero; the sign turns it round.
pub proof fn patterns_are_double_precision(exponent: nat, fraction: nat)
    requires
        exponent < 2048,
        fraction < 0x10_0000_0000_0000,
    ensures
        ({
            let bits = exponent * 0x10_0000_0000_0000 + fraction;
            let plus = Num { bits: bits as u64 };
            let minus = Num { bits: (bits + 0x8000_0000_0000_0000) as u64 };
            &&& plus.nan() <==> exponent == 2047 && fraction > 0
            &&& minus.nan() <==> plus.nan()
            &&& minus.key() == -plus.key()
            &&& minus.value() == -plus.value()
            &&& exponent == 0 ==> plus.value() == fraction
            &&& exponent > 0 ==> plus.value() == (0x10_0000_0000_0000 + fraction) * pow2(
                (exponent - 1) as nat,
            )
        }),
{
    let bits = exponent * 0x10_0000_0000_0000 + fraction;
    assert(bits < 0x8000_0000_0000_0000);
    assert(bits / (BINADE as nat) == exponent && bits % (BINADE as nat) == fraction) by {
        vstd::arithmetic::div_mod::lemma_fundamental_div_mod_converse(
            bits as int,
            BINADE as int,
            exponent as int,
            fraction as int,
        );
    }
}

} // verus!

//! Non-negative doubles, held as their bit patterns.
//!
//! Rates, ratios and thresholds are doubles, and most of the arithmetic on them
//! belongs to whoever measures. What the detectors decide is only which of two
//! is the larger, and for non-negative IEEE 754 doubles that is the order of
//! their bit patterns read as integers. The double of a count and the half of a
//! double are plain on patterns, too.

use vstd::prelude::*;

use crate::alert;
use crate::alert::nearest_of;

verus! {

/// The pattern of positive infinity; finite non-negative doubles lie below it.
pub const INFINITY_BITS: u64 = 0x7ff0_0000_0000_0000;

/// The pattern of negative zero, which equals zero.
pub const NEGATIVE_ZERO_BITS: u64 = 0x8000_0000_0000_0000;

/// The pattern of 1.
pub const ONE_BITS: u64 = 0x3ff0_0000_0000_0000;

/// A double by its bit pattern.
#[derive(Clone, Copy, Debug, PartialEq, Eq, Structural)]
pub struct Rate {
    pub bits: u64,
}

impl Rate {
    /// The pattern is that of a finite double that is at least zero.
    pub open spec fn magnitude(self) -> bool {
        self.bits < INFINITY_BITS || self.bits == NEGATIVE_ZERO_BITS
    }

    /// Where the double stands among the non-negative doubles.
    pub open spec fn rank(self) -> int {
        if self.bits == NEGATIVE_ZERO_BITS {
            0
        } else {
            self.bits as int
        }
    }

    /// The pattern is that of a double from 0 to 1.
    pub open spec fn fraction(self) -> bool {
        self.magnitude() && self.rank() <= ONE_BITS
    }

    pub fn zero() -> (out: Rate)
        ensures
            out.magnitude(),
            out.rank() == 0,
            out.bits == 0,
    {
        Rate { bits: 0 }
    }

    pub fn is_magnitude(self) -> (b: bool)
        ensures
            b == self.magnitude(),
    {
        self.bits < INFINITY_BITS || self.bits == NEGATIVE_ZERO_BITS
    }

    pub fn is_fraction(self) -> (b: bool)
        ensures
            b == self.fraction(),
    {
        self.bits <= ONE_BITS || self.bits == NEGATIVE_ZERO_BITS
    }

    pub fn at_least(self, other: Rate) -> (b: bool)
        ensures
            b == (self.rank() >= other.rank()),
    {
        let a: u64 = if self.bits == NEGATIVE_ZERO_BITS {
            0
        } else {
            self.bits
        };
        let b: u64 = if other.bits == NEGATIVE_ZERO_BITS {
            0
        } else {
            other.bits
        };
        a >= b
    }
}

// -- Counts and halves --------------------------------------------------------

/// Two to the power of 52: what one step of the exponent is worth in a pattern.
pub const STEP: u64 = 0x10_0000_0000_0000;

/// The pattern of a number of at most 53 bits, with the exponent `e` that it has
/// when all 53 are used: shift it up until they are.
pub open spec fn normal(n: nat, e: int) -> int
    decreases 2 * STEP - n,
{
    if n == 0 || n >= STEP {
        e * STEP + n
    } else {
        normal(2 * n, e - 1)
    }
}

/// How often the distance between neighbouring doubles has doubled at `n`.
pub open spec fn spacing_exponent(n: nat) -> int
    decreases n,
{
    if n < 2 * STEP {
        0
    } else {
        1 + spacing_exponent(n / 2)
    }
}

/// The pattern of the double nearest to `n`.
pub open spec fn double_of(n: nat) -> int {
    if n == 0 {
        0
    } else if n < 2 * STEP {
        normal(n, 1074)
    } else {
        (1074 + spacing_exponent(n)) * STEP + alert::nearest(n, alert::spacing(n))
    }
}

/// The pattern of half a non-negative double: one step of the exponent less, and
/// among the smallest doubles half the pattern itself.
pub open spec fn half_of(bits: nat) -> nat {
    if bits >= 2 * STEP {
        (bits - STEP) as nat
    } else {
        alert::nearest(bits, 2)
    }
}

fn normalised(n: u64) -> (bits: u64)
    requires
        1 <= n < 2 * STEP,
    ensures
        bits == normal(n as nat, 1074),
        bits < INFINITY_BITS,
{
    let mut m: u64 = n;
    let mut e: u64 = 1074;
    proof {
        vstd::arithmetic::power2::lemma2_to64();
    }
    while m < STEP
        invariant
            1 <= m < 2 * STEP,
            1022 <= e <= 1074,
            m >= vstd::arithmetic::power2::pow2((1074 - e) as nat),
            normal(m as nat, e as int) == normal(n as nat, 1074),
        decreases 2 * STEP - m,
    {
        proof {
            vstd::arithmetic::power2::lemma2_to64();
            vstd::arithmetic::power2::lemma2_to64_rest();
            vstd::arithmetic::power2::lemma_pow2_unfold((1075 - e) as nat);
            if e == 1022 {
                assert(vstd::arithmetic::power2::pow2(52) == STEP);
            }
        }
        m = 2 * m;
        e = e - 1;
    }
    assert(e * STEP + m < INFINITY_BITS) by (nonlinear_arith)
        requires
            e <= 1074,
            m < 2 * STEP,
    ;
    e * STEP + m
}

fn spacing_with_exponent(n: u64) -> (out: (u64, u64))
    ensures
        out.0 == alert::spacing(n as nat),
        out.1 == spacing_exponent(n as nat),
        1 <= out.0,
        out.0 > 1 ==> out.0 * STEP <= n,
        n < out.0 * (2 * STEP),
        out.1 <= 12,
        out.0 == vstd::arithmetic::power2::pow2(out.1 as nat),
    decreases n,
{
    proof {
        vstd::arithmetic::power2::lemma2_to64();
    }
    if n < 2 * STEP {
        (1, 0)
    } else {
        let (s, k): (u64, u64) = spacing_with_exponent(n / 2);
        proof {
            vstd::arithmetic::power2::lemma_pow2_unfold((k + 1) as nat);
        }
        (2 * s, k + 1)
    }
}

impl Rate {
    /// The double nearest to a count.
    pub fn of_int(n: u64) -> (out: Rate)
        ensures
            out.bits == double_of(n as nat),
            out.bits < INFINITY_BITS,
    {
        if n == 0 {
            return Rate { bits: 0 };
        }
        if n < 2 * STEP {
            return Rate { bits: normalised(n) };
        }
        let (ulp, k): (u64, u64) = spacing_with_exponent(n);
        let q: u128 = nearest_of(n as u128, ulp as u128);
        assert(n / ulp < 2 * STEP) by (nonlinear_arith)
            requires
                n < ulp * (2 * STEP),
                ulp >= 1,
        ;
        assert((1074 + k) * STEP <= 1086 * STEP) by (nonlinear_arith)
            requires
                k <= 12,
        ;
        Rate { bits: (1074 + k) * STEP + q as u64 }
    }

    /// Half of it.
    pub fn half(self) -> (out: Rate)
        requires
            self.bits < INFINITY_BITS,
        ensures
            out.bits == half_of(self.bits as nat),
            out.bits < INFINITY_BITS,
    {
        if self.bits >= 2 * STEP {
            Rate { bits: self.bits - STEP }
        } else {
            Rate { bits: nearest_of(self.bits as u128, 2) as u64 }
        }
    }
}

// -- Laws ---------------------------------------------------------------------

/// Patterns of finite doubles that are not negative are ordered as the doubles
/// are: by the patterns themselves, with both zeros alike. A share ends at one.
pub proof fn patterns_are_ordered_as_their_doubles(a: Rate, b: Rate)
    ensures
        a.magnitude() <==> a.bits < 0x7ff0_0000_0000_0000 || a.bits == 0x8000_0000_0000_0000,
        a.fraction() <==> a.bits <= 0x3ff0_0000_0000_0000 || a.bits == 0x8000_0000_0000_0000,
        a.bits < 0x8000_0000_0000_0000 && b.bits < 0x8000_0000_0000_0000 ==> (a.rank() <= b.rank()
            <==> a.bits <= b.bits),
        a.bits == 0x8000_0000_0000_0000 ==> a.rank() == (Rate { bits: 0 }).rank(),
        a.bits == 0x8000_0000_0000_0000 && b.magnitude() ==> a.rank() <= b.rank(),
{
}

proof fn lemma_normal(n: nat, e: int)
    requires
        n > 0,
    ensures
        normal(n, e) == normal(n, e - 1) + STEP,
    decreases 2 * STEP - n,
{
    if n < STEP {
        lemma_normal(2 * n, e - 1);
    } else {
        assert(e * STEP == (e - 1) * STEP + STEP) by (nonlinear_arith);
    }
}

proof fn lemma_nearest_doubles(n: nat, b: nat)
    requires
        b > 0,
    ensures
        alert::nearest(2 * n, 2 * b) == alert::nearest(n, b),
{
    vstd::arithmetic::div_mod::lemma_fundamental_div_mod(n as int, b as int);
    let q = n as int / b as int;
    let r = n as int % b as int;
    assert(2 * n == q * (2 * b) + 2 * r) by (nonlinear_arith)
        requires
            n == b * q + r,
    ;
    vstd::arithmetic::div_mod::lemma_fundamental_div_mod_converse(
        2 * n as int,
        2 * b as int,
        q,
        2 * r,
    );
}

proof fn lemma_spacing_positive(n: nat)
    ensures
        alert::spacing(n) > 0,
    decreases n,
{
    if n >= 0x20_0000_0000_0000 {
        lemma_spacing_positive(n / 2);
    }
}

/// The double of a whole number: one of exactly fifty-three bits is its own
/// mantissa under a fixed exponent, and twice a number has the same mantissa and
/// one exponent more. Nought is all zeros.
pub proof fn doubling_a_number_adds_one_to_its_exponent(n: nat)
    ensures
        double_of(0) == 0,
        0x10_0000_0000_0000 <= n < 0x20_0000_0000_0000 ==> double_of(n) == 1075
            * 0x10_0000_0000_0000 + (n - 0x10_0000_0000_0000),
        n > 0 ==> double_of(2 * n) == double_of(n) + 0x10_0000_0000_0000,
{
    if n > 0 {
        if n < STEP {
            lemma_normal(2 * n, 1074);
            assert(normal(n, 1074) == normal(2 * n, 1073));
        } else if n < 2 * STEP {
            assert(spacing_exponent(2 * n) == 1 + spacing_exponent(n)) by {
                assert((2 * n) / 2 == n);
            }
            assert(spacing_exponent(n) == 0);
            assert(alert::spacing(n) == 1);
            assert(alert::spacing(2 * n) == 2) by {
                assert((2 * n) / 2 == n);
            }
            lemma_nearest_doubles(n, 1);
            assert(alert::nearest(n, 1) == n);
        } else {
            assert((2 * n) / 2 == n);
            assert(spacing_exponent(2 * n) == 1 + spacing_exponent(n));
            assert(alert::spacing(2 * n) == 2 * alert::spacing(n));
            lemma_spacing_positive(n);
            lemma_nearest_doubles(n, alert::spacing(n));
            let e = spacing_exponent(n);
            assert((1075 + e) * STEP == (1074 + e) * STEP + STEP) by (nonlinear_arith);
        }
    }
}

/// Half of the double of twice a number is the double of the number.
pub proof fn halving_undoes_doubling(n: nat)
    requires
        0 < n <= u64::MAX,
    ensures
        half_of(double_of(2 * n) as nat) == double_of(n),
        half_of(0) == 0,
{
    doubling_a_number_adds_one_to_its_exponent(n);
    lemma_a_whole_number_is_no_small_double(n);
}

proof fn lemma_a_whole_number_is_no_small_double(n: nat)
    requires
        n > 0,
    ensures
        double_of(n) >= 1023 * STEP,
{
    if n < 2 * STEP {
        assert(twos(52) == STEP) by {
            reveal_with_fuel(twos, 53);
        }
        assert(n * twos(52) >= STEP) by (nonlinear_arith)
            requires
                n > 0,
                twos(52) == STEP,
        ;
        lemma_normal_is_large(n, 1074, 52);
    } else {
        lemma_spacing_positive(n);
        lemma_exponent_positive(n);
        let e = spacing_exponent(n);
        assert((1074 + e) * STEP >= 1074 * STEP) by (nonlinear_arith)
            requires
                e >= 0,
        ;
    }
}

proof fn lemma_exponent_positive(n: nat)
    ensures
        spacing_exponent(n) >= 0,
    decreases n,
{
    if n >= 2 * STEP {
        lemma_exponent_positive(n / 2);
    }
}

/// Two to a power.
spec fn twos(k: nat) -> nat
    decreases k,
{
    if k == 0 {
        1
    } else {
        2 * twos((k - 1) as nat)
    }
}

proof fn lemma_normal_is_large(n: nat, e: int, k: nat)
    requires
        n > 0,
        n * twos(k) >= STEP,
        n < 2 * STEP,
    ensures
        normal(n, e) >= (e - k) * STEP + STEP,
    decreases k,
{
    if n >= STEP {
        assert(e * STEP >= (e - k) * STEP) by (nonlinear_arith);
    } else if k == 0 {
        assert(n * twos(0) == n) by (nonlinear_arith)
            requires
                twos(0) == 1,
        ;
    } else {
        let less = (k - 1) as nat;
        assert((2 * n) * twos(less) == n * twos(k)) by (nonlinear_arith)
            requires
                twos(k) == 2 * twos(less),
        ;
        lemma_normal_is_large(2 * n, e - 1, less);
    }
}

} // verus!

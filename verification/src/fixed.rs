//! Fixed-point noise arithmetic. A coherent-noise sample remapped into
//! [0, 1] is held as an integer in [0, NOISE_ONE]; the fractal-sum
//! combinator, linear interpolation and the step ramp all work on that
//! scale, so the terrain rules need no floating point.

use vstd::prelude::*;

use vstd::arithmetic::div_mod::{lemma_div_is_ordered, lemma_div_multiples_vanish};
use vstd::arithmetic::mul::lemma_mul_inequality;
use vstd::arithmetic::power::{lemma_pow_adds, lemma_pow_positive, pow};

verus! {

/// Fixed-point 1.0: one noise unit.
pub const NOISE_ONE: u32 = 10000;

/// Linear interpolation from `a` to `b` by `t` noise units.
pub open spec fn spec_lerp(a: int, b: int, t: int) -> int {
    (a * (10000 - t) + b * t) / 10000
}

/// `(x - e0) / (e1 - e0)` in noise units, clamped into [0, NOISE_ONE].
pub open spec fn spec_lerpstep(e0: int, e1: int, x: int) -> int {
    if x <= e0 {
        0
    } else if x >= e1 {
        10000
    } else {
        (x - e0) * 10000 / (e1 - e0)
    }
}

/// Weight of octave `o` out of `octaves`, persistence `p_num / p_den`,
/// cleared of the denominator: `p_num^o * p_den^(octaves - 1 - o)`.
pub open spec fn fbm_weight(p_num: int, p_den: int, octaves: nat, o: nat) -> int {
    pow(p_num, o) * pow(p_den, (octaves - 1 - o) as nat)
}

/// Weighted sum of the first `upto` samples.
pub open spec fn fbm_weighted(s: Seq<u16>, p_num: int, p_den: int, upto: nat) -> int
    decreases upto,
{
    if upto == 0 {
        0
    } else {
        fbm_weighted(s, p_num, p_den, (upto - 1) as nat) + s[upto - 1] * fbm_weight(
            p_num,
            p_den,
            s.len(),
            (upto - 1) as nat,
        )
    }
}

/// Sum of the first `upto` octave weights.
pub open spec fn fbm_weight_total(p_num: int, p_den: int, octaves: nat, upto: nat) -> int
    decreases upto,
{
    if upto == 0 {
        0
    } else {
        fbm_weight_total(p_num, p_den, octaves, (upto - 1) as nat) + fbm_weight(
            p_num,
            p_den,
            octaves,
            (upto - 1) as nat,
        )
    }
}

/// The fractal sum of the samples `s`, one per octave at geometrically
/// increasing frequency, each weighted by persistence = `p_num / p_den`
/// raised to its octave number and remapped back into noise units by the
/// total weight.
pub open spec fn spec_fbm(s: Seq<u16>, p_num: int, p_den: int) -> int {
    fbm_weighted(s, p_num, p_den, s.len()) / fbm_weight_total(p_num, p_den, s.len(), s.len())
}

/// Octave weights are positive for a positive persistence fraction.
pub proof fn lemma_fbm_weight_positive(p_num: int, p_den: int, octaves: nat, o: nat)
    requires
        1 <= p_num,
        1 <= p_den,
    ensures
        fbm_weight(p_num, p_den, octaves, o) >= 1,
{
    lemma_pow_positive(p_num, o);
    lemma_pow_positive(p_den, (octaves - 1 - o) as nat);
    lemma_mul_inequality(1, pow(p_num, o), pow(p_den, (octaves - 1 - o) as nat));
}

/// Octave weights are bounded by `p_den^(octaves - 1)` when the persistence
/// fraction is at most one.
pub proof fn lemma_fbm_weight_bound(p_num: int, p_den: int, octaves: nat, o: nat)
    requires
        1 <= p_num <= p_den,
        o < octaves,
    ensures
        1 <= fbm_weight(p_num, p_den, octaves, o) <= pow(p_den, (octaves - 1) as nat),
{
    lemma_fbm_weight_positive(p_num, p_den, octaves, o);
    lemma_pow_positive(p_den, (octaves - 1 - o) as nat);
    lemma_pow_positive(p_den, o);
    lemma_pow_positive(p_num, o);
    assert(pow(p_num, o) <= pow(p_den, o)) by {
        lemma_pow_base_increases(p_num, p_den, o);
    }
    lemma_mul_inequality(pow(p_num, o), pow(p_den, o), pow(p_den, (octaves - 1 - o) as nat));
    lemma_pow_adds(p_den, o, (octaves - 1 - o) as nat);
}

/// A power of a smaller base is no larger.
pub proof fn lemma_pow_base_increases(a: int, b: int, e: nat)
    requires
        1 <= a <= b,
    ensures
        pow(a, e) <= pow(b, e),
    decreases e,
{
    reveal(vstd::arithmetic::power::pow);
    if e > 0 {
        lemma_pow_base_increases(a, b, (e - 1) as nat);
        lemma_pow_positive(a, (e - 1) as nat);
        lemma_pow_positive(b, (e - 1) as nat);
        assert(a * pow(a, (e - 1) as nat) <= b * pow(b, (e - 1) as nat)) by (nonlinear_arith)
            requires
                1 <= a <= b,
                1 <= pow(a, (e - 1) as nat) <= pow(b, (e - 1) as nat),
        ;
    }
}

/// One more octave multiplies the power by the base once.
pub proof fn lemma_pow_step(b: int, e: nat)
    ensures
        pow(b, e + 1) == b * pow(b, e),
{
    lemma_pow_adds(b, 1, e);
    assert(pow(b, 1) == b) by {
        vstd::arithmetic::power::lemma_pow1(b);
    }
}

/// `b` raised to a small exponent, exactly.
fn pow_u64(b: u64, e: u32) -> (r: u64)
    requires
        1 <= b <= 16,
        e <= 7,
    ensures
        r == pow(b as int, e as nat),
        1 <= r <= 0x10000000,
{
    let mut r: u64 = 1;
    let mut i: u32 = 0;
    proof {
        vstd::arithmetic::power::lemma_pow0(b as int);
        vstd::arithmetic::power::lemma_pow0(16);
    }
    while i < e
        invariant
            1 <= b <= 16,
            i <= e <= 7,
            r == pow(b as int, i as nat),
            1 <= r,
            r <= pow(16, i as nat),
        decreases e - i,
    {
        proof {
            lemma_pow_step(b as int, i as nat);
            lemma_pow_step(16, i as nat);
            lemma_pow_positive(b as int, (i + 1) as nat);
            lemma_pow_base_increases(b as int, 16, (i + 1) as nat);
            lemma_pow_base_increases(b as int, 16, i as nat);
            assert(pow(16, (i + 1) as nat) == 16 * pow(16, i as nat));
            assert(pow(16, 7nat) == 0x10000000) by {
                reveal_with_fuel(vstd::arithmetic::power::pow, 8);
            }
            assert(pow(16, (i + 1) as nat) <= pow(16, 7nat)) by {
                vstd::arithmetic::power::lemma_pow_increases(16nat, (i + 1) as nat, 7nat);
            }
            assert(pow(b as int, (i + 1) as nat) == b * pow(b as int, i as nat));
        }
        r = r * b;
        i = i + 1;
    }
    proof {
        lemma_pow_base_increases(b as int, 16, i as nat);
        assert(pow(16, i as nat) <= pow(16, 7nat)) by {
            vstd::arithmetic::power::lemma_pow_increases(16nat, i as nat, 7nat);
        }
        assert(pow(16, 7nat) == 0x10000000) by {
                reveal_with_fuel(vstd::arithmetic::power::pow, 8);
            }
    }
    r
}

/// The weighted sum stays under NOISE_ONE times the total weight when every
/// sample is at most NOISE_ONE.
proof fn lemma_fbm_sum_bounds(s: Seq<u16>, p_num: int, p_den: int, upto: nat)
    requires
        1 <= p_num <= p_den,
        upto <= s.len(),
        forall|j: int| 0 <= j < s.len() ==> (#[trigger] s[j]) <= 10000,
    ensures
        0 <= fbm_weighted(s, p_num, p_den, upto) <= 10000 * fbm_weight_total(
            p_num,
            p_den,
            s.len(),
            upto,
        ),
        upto >= 1 ==> fbm_weight_total(p_num, p_den, s.len(), upto) >= 1,
    decreases upto,
{
    if upto > 0 {
        lemma_fbm_sum_bounds(s, p_num, p_den, (upto - 1) as nat);
        let o = (upto - 1) as nat;
        let w = fbm_weight(p_num, p_den, s.len(), o);
        lemma_fbm_weight_positive(p_num, p_den, s.len(), o);
        assert(s[upto - 1] * w <= 10000 * w) by {
            lemma_mul_inequality(s[upto - 1] as int, 10000, w);
        }
        assert(0 <= s[upto - 1] * w) by {
            lemma_mul_inequality(0, s[upto - 1] as int, w);
        }
        assert(10000 * fbm_weight_total(p_num, p_den, s.len(), upto) == 10000 * fbm_weight_total(
            p_num,
            p_den,
            s.len(),
            o,
        ) + 10000 * w) by (nonlinear_arith)
            requires
                fbm_weight_total(p_num, p_den, s.len(), upto) == fbm_weight_total(
                    p_num,
                    p_den,
                    s.len(),
                    o,
                ) + w,
        ;
    }
}

/// The fractal sum of `octaves` samples starting at `start` in `samples`,
/// with persistence `p_num / p_den`. Always lands back in [0, NOISE_ONE].
pub fn fbm(samples: &Vec<u16>, start: usize, octaves: usize, p_num: u64, p_den: u64) -> (r: u32)
    requires
        1 <= octaves <= 8,
        1 <= p_num <= p_den <= 16,
        start + octaves <= samples@.len(),
        forall|j: int| 0 <= j < samples@.len() ==> (#[trigger] samples@[j]) <= 10000,
    ensures
        r == spec_fbm(
            samples@.subrange(start as int, (start + octaves) as int),
            p_num as int,
            p_den as int,
        ),
        r <= 10000,
{
    let n = samples.len();
    let ghost s = samples@.subrange(start as int, (start + octaves) as int);
    let mut sum: u64 = 0;
    let mut total: u64 = 0;
    let mut o: usize = 0;
    while o < octaves
        invariant
            1 <= octaves <= 8,
            1 <= p_num <= p_den <= 16,
            n == samples@.len(),
            start + octaves <= samples@.len(),
            forall|j: int| 0 <= j < samples@.len() ==> (#[trigger] samples@[j]) <= 10000,
            s == samples@.subrange(start as int, (start + octaves) as int),
            s.len() == octaves,
            o <= octaves,
            sum == fbm_weighted(s, p_num as int, p_den as int, o as nat),
            total == fbm_weight_total(p_num as int, p_den as int, octaves as nat, o as nat),
            sum <= 10000 * 0x10000000 * o,
            total <= 0x10000000 * o,
        decreases octaves - o,
    {
        let sample = samples[start + o];
        proof {
            assert(s[o as int] == samples@[start + o]);
            assert(samples@[start + o] <= 10000);
        }
        let w1 = pow_u64(p_num, o as u32);
        let w2 = pow_u64(p_den, (octaves - 1 - o) as u32);
        proof {
            assert(w1 * w2 <= 0x10000000 * 0x10000000) by (nonlinear_arith)
                requires
                    1 <= w1 <= 0x10000000,
                    1 <= w2 <= 0x10000000,
            ;
        }
        let w = w1 * w2;
        proof {
            assert(w == fbm_weight(p_num as int, p_den as int, octaves as nat, o as nat));
            lemma_fbm_weight_bound(p_num as int, p_den as int, octaves as nat, o as nat);
            lemma_pow_base_increases(p_den as int, 16, (octaves - 1) as nat);
            vstd::arithmetic::power::lemma_pow_increases(16nat, (octaves - 1) as nat, 7nat);
            assert(pow(16, 7nat) == 0x10000000) by {
                reveal_with_fuel(vstd::arithmetic::power::pow, 8);
            }
            assert(w <= 0x10000000);
            assert((sample as u64) * w <= 10000 * 0x10000000) by (nonlinear_arith)
                requires
                    sample <= 10000,
                    0 <= w <= 0x10000000,
            ;
            assert(0 <= (sample as u64) * w) by (nonlinear_arith)
                requires
                    0 <= sample,
                    0 <= w,
            ;
            assert(sum <= 10000 * 0x10000000 * o);
            assert(10000 * 0x10000000 * (o + 1) == 10000 * 0x10000000 * o + 10000
                * 0x10000000) by (nonlinear_arith);
            assert(sum + (sample as u64) * w <= 10000 * 0x10000000 * (o + 1));
            assert(total + w <= 0x10000000 * (o + 1)) by {
                assert(0x10000000 * (o + 1) == 0x10000000 * o + 0x10000000) by (nonlinear_arith);
            }
        }
        sum = sum + (sample as u64) * w;
        total = total + w;
        o = o + 1;
    }
    proof {
        lemma_fbm_sum_bounds(s, p_num as int, p_den as int, octaves as nat);
        assert(sum as int / total as int <= (10000 * total as int) / total as int) by {
            lemma_div_is_ordered(sum as int, 10000 * total, total as int);
        }
        assert((total as int * 10000) / total as int == 10000) by {
            lemma_div_multiples_vanish(10000, total as int);
        }
        assert(total as int * 10000 == 10000 * total as int);
        assert(sum as int / total as int <= 10000);
        assert(sum as int / total as int == spec_fbm(s, p_num as int, p_den as int));
    }
    (sum / total) as u32
}

/// Interpolate from `a` up to `b` by `t` noise units.
pub fn lerp(a: u32, b: u32, t: u32) -> (r: u32)
    requires
        a <= b,
        b <= 1000000,
        t <= 10000,
    ensures
        r == spec_lerp(a as int, b as int, t as int),
        a <= r <= b,
{
    proof {
        assert((a as int) * ((10000 - t) as int) <= 1000000 * 10000) by (nonlinear_arith)
            requires
                0 <= a <= 1000000,
                0 <= t <= 10000,
        ;
        assert((b as int) * (t as int) <= 1000000 * 10000) by (nonlinear_arith)
            requires
                0 <= b <= 1000000,
                0 <= t <= 10000,
        ;
        assert(0 <= (a as int) * ((10000 - t) as int)) by (nonlinear_arith)
            requires
                0 <= a,
                0 <= t <= 10000,
        ;
        assert(0 <= (b as int) * (t as int)) by (nonlinear_arith)
            requires
                0 <= b,
                0 <= t,
        ;
    }
    let num: u64 = (a as u64) * (10000 - t as u64) + (b as u64) * (t as u64);
    proof {
        assert((a as int) * 10000 <= num) by (nonlinear_arith)
            requires
                num == (a as int) * (10000 - t as int) + (b as int) * (t as int),
                a <= b,
                0 <= t <= 10000,
        ;
        assert(num <= (b as int) * 10000) by (nonlinear_arith)
            requires
                num == (a as int) * (10000 - t as int) + (b as int) * (t as int),
                a <= b,
                0 <= t <= 10000,
        ;
        assert((10000 * (a as int)) / 10000 == a as int) by {
            lemma_div_multiples_vanish(a as int, 10000);
        }
        assert((10000 * (b as int)) / 10000 == b as int) by {
            lemma_div_multiples_vanish(b as int, 10000);
        }
        lemma_div_is_ordered(10000 * (a as int), num as int, 10000);
        lemma_div_is_ordered(num as int, 10000 * (b as int), 10000);
    }
    (num / 10000) as u32
}

/// Where `x` stands between `e0` and `e1`, in noise units, clamped.
pub fn lerpstep(e0: u64, e1: u64, x: u64) -> (r: u32)
    requires
        e0 < e1,
        e1 <= 100000000,
        x <= 100000000,
    ensures
        r == spec_lerpstep(e0 as int, e1 as int, x as int),
        r <= 10000,
{
    if x <= e0 {
        0
    } else if x >= e1 {
        10000
    } else {
        let num: u64 = (x - e0) * 10000;
        let den: u64 = e1 - e0;
        proof {
            assert(num < (den as int) * 10000) by (nonlinear_arith)
                requires
                    num == (x as int - e0 as int) * 10000,
                    den == e1 as int - e0 as int,
                    (e0 as int) < (x as int) && (x as int) < (e1 as int),
            ;
            lemma_div_is_ordered(num as int, (den as int) * 10000, den as int);
            assert(((den as int) * 10000) / den as int == 10000) by {
                lemma_div_multiples_vanish(10000, den as int);
            }
            assert((den as int) * 10000 == 10000 * (den as int));
        }
        (num / den) as u32
    }
}

} // verus!

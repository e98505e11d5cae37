//! Exponential-hazard probabilities in fixed point, and random draws.
//!
//! An annualized hazard `rate` acting for a timestep `dt` succeeds with
//! probability `1 - e^(-dt * rate)`, never the linear approximation
//! `dt * rate`, so the per-tick probability stays inside `(0, 1)` and is
//! cadence-invariant in expectation. Probabilities and hazard exponents are
//! unsigned fixed-point numbers scaled by [`HAZARD_ONE`] (`2^32`); the
//! exponential is evaluated in `2^40` fixed point by a degree-five
//! alternating series followed by eight squarings.

use vstd::prelude::*;

verus! {

/// Fixed-point scale: this value stands for probability 1.
pub const HAZARD_ONE: u64 = 0x1_0000_0000;

/// Internal fixed-point scale of the exponential evaluation.
const Q40_ONE: u64 = 0x100_0000_0000;

/// Hazard exponents at least this large round to certainty: `e^(-32)` is
/// smaller than the fixed-point resolution `2^-32`.
pub const EXPONENT_CAP: u64 = 0x20_0000_0000;

/// Fixed-point product at the internal scale, as a value: `a * b / 2^40`,
/// rounded down.
pub open spec fn mul_q40_spec(a: int, b: int) -> int {
    (a * b) / 0x100_0000_0000
}

/// The degree-five alternating series at the internal scale:
/// `1 - t + t^2/2 - t^3/6 + t^4/24 - t^5/120`, each term rounded down.
pub open spec fn exp_series_q40(t: int) -> int {
    let t2 = mul_q40_spec(t, t) / 2;
    let t3 = mul_q40_spec(t2, t) / 3;
    let t4 = mul_q40_spec(t3, t) / 4;
    let t5 = mul_q40_spec(t4, t) / 5;
    0x100_0000_0000 + t2 + t4 - ((t + t3) + t5)
}

/// The exact value [`exp_neg_q32`] computes: zero at or beyond the cap,
/// otherwise the series squared eight times and rescaled. This pins the
/// exponential-hazard shape; no linear approximation meets it.
#[verifier::opaque]
pub open spec fn exp_neg_spec(x: int) -> int {
    if x >= EXPONENT_CAP {
        0
    } else {
        let y0 = exp_series_q40(x);
        let y1 = mul_q40_spec(y0, y0);
        let y2 = mul_q40_spec(y1, y1);
        let y3 = mul_q40_spec(y2, y2);
        let y4 = mul_q40_spec(y3, y3);
        let y5 = mul_q40_spec(y4, y4);
        let y6 = mul_q40_spec(y5, y5);
        let y7 = mul_q40_spec(y6, y6);
        let y8 = mul_q40_spec(y7, y7);
        y8 / 256
    }
}

/// The exact value [`hazard_probability`] computes: certainty at or
/// beyond the cap, otherwise one minus the fixed-point exponential.
pub open spec fn hazard_probability_spec(dt: int, rate: int) -> int {
    if dt * rate >= EXPONENT_CAP {
        HAZARD_ONE as int
    } else {
        HAZARD_ONE - exp_neg_spec(dt * rate)
    }
}

/// Fixed-point product: `a * b / 2^40`, rounded down.
fn mul_q40(a: u64, b: u64) -> (r: u64)
    requires
        a <= Q40_ONE,
        b <= Q40_ONE,
    ensures
        r == (a as int * b as int) / (Q40_ONE as int),
        r <= a,
        r <= b,
        a == Q40_ONE && b == Q40_ONE ==> r == Q40_ONE,
{
    proof {
        assert((a as u128) * (b as u128) <= 0x1_0000_0000_0000_0000_0000u128)
            by (nonlinear_arith)
            requires
                a <= 0x100_0000_0000u64,
                b <= 0x100_0000_0000u64,
        ;
    }
    let p: u128 = (a as u128) * (b as u128);
    let q: u128 = p / (Q40_ONE as u128);
    proof {
        assert(q <= a && q <= b && ((a == 0x100_0000_0000u64 && b == 0x100_0000_0000u64)
            ==> q == 0x100_0000_0000u128)) by (nonlinear_arith)
            requires
                q == p / 0x100_0000_0000u128,
                p == (a as u128) * (b as u128),
                a <= 0x100_0000_0000u64,
                b <= 0x100_0000_0000u64,
        ;
    }
    q as u64
}

/// Fixed-point `e^(-x)`: both `x` and the result are scaled by
/// [`HAZARD_ONE`]. Exact at `x == 0`; strictly below 1 for `x > 0`;
/// 0 for exponents beyond [`EXPONENT_CAP`].
pub fn exp_neg_q32(x: u64) -> (r: u64)
    ensures
        r == exp_neg_spec(x as int),
        r <= HAZARD_ONE,
        x == 0 ==> r == HAZARD_ONE,
        x > 0 ==> r < HAZARD_ONE,
{
    proof {
        reveal(exp_neg_spec);
    }
    if x >= EXPONENT_CAP {
        return 0;
    }
    // In 2^40 fixed point the value x / 2^32 divided by 256 is x itself,
    // so the series argument t is below 1/8 and the series converges fast.
    let t: u64 = x;
    // e^(-t) ~ 1 - t + t^2/2 - t^3/6 + t^4/24 - t^5/120
    let t2: u64 = mul_q40(t, t) / 2;
    let t3: u64 = mul_q40(t2, t) / 3;
    let t4: u64 = mul_q40(t3, t) / 4;
    let t5: u64 = mul_q40(t4, t) / 5;
    proof {
        // t2 <= t/16 because t < 2^37 = Q40_ONE/8 and a further halving.
        assert((t as int * t as int) / (Q40_ONE as int) <= t / 8) by (nonlinear_arith)
            requires
                t < 0x20_0000_0000,
                Q40_ONE == 0x100_0000_0000,
        ;
    }
    let positive: u64 = (Q40_ONE + t2) + t4;
    let negative: u64 = (t + t3) + t5;
    let y0: u64 = positive - negative;
    proof {
        assert(t >= 1 ==> t2 + t >= 1 + t2 + t / 16);
        assert(t >= 1 ==> y0 <= Q40_ONE - 1);
        assert(t == 0 ==> y0 == Q40_ONE);
    }
    // Square eight times: e^(-x/256) to the power 256 is e^(-x).
    let y1: u64 = mul_q40(y0, y0);
    let y2: u64 = mul_q40(y1, y1);
    let y3: u64 = mul_q40(y2, y2);
    let y4: u64 = mul_q40(y3, y3);
    let y5: u64 = mul_q40(y4, y4);
    let y6: u64 = mul_q40(y5, y5);
    let y7: u64 = mul_q40(y6, y6);
    let y8: u64 = mul_q40(y7, y7);
    y8 / 256
}

/// Per-tick success probability of an annualized hazard: the fixed-point
/// value of `1 - e^(-dt * rate)`, [`HAZARD_ONE`] standing for certainty.
/// Zero exactly when the timestep or the rate is zero.
pub fn hazard_probability(dt: u64, rate: u64) -> (p: u64)
    ensures
        p == hazard_probability_spec(dt as int, rate as int),
        p <= HAZARD_ONE,
        p == 0 <==> (dt == 0 || rate == 0),
        dt as int * rate as int >= EXPONENT_CAP ==> p == HAZARD_ONE,
{
    proof {
        assert((dt as u128) * (rate as u128) <= (u64::MAX as u128) * (u64::MAX as u128))
            by (nonlinear_arith)
            requires
                dt <= u64::MAX,
                rate <= u64::MAX,
        ;
    }
    let x128: u128 = (dt as u128) * (rate as u128);
    proof {
        assert(x128 == 0 <==> (dt == 0 || rate == 0)) by (nonlinear_arith)
            requires
                x128 == (dt as u128) * (rate as u128),
        ;
    }
    if x128 >= EXPONENT_CAP as u128 {
        HAZARD_ONE
    } else {
        let x: u64 = x128 as u64;
        HAZARD_ONE - exp_neg_q32(x)
    }
}

/// Relies on `rand::thread_rng` and `rand::Rng::gen_range`: a uniform draw
/// from `0..n`, which requires a non-empty range and stays below its upper
/// bound.
#[verifier::external_body]
pub(crate) fn random_u64_below(n: u64) -> (r: u64)
    requires
        n > 0,
    ensures
        r < n,
{
    let mut rng = rand::thread_rng();
    rand::Rng::gen_range(&mut rng, 0..n)
}

/// Relies on `rand::random::<bool>`: a fair coin flip.
#[verifier::external_body]
pub(crate) fn random_bool() -> (r: bool) {
    rand::random::<bool>()
}

/// One Bernoulli trial at fixed-point probability `p`: impossible at
/// probability zero, certain at [`HAZARD_ONE`] or above.
pub fn hazard_draw(p: u64) -> (r: bool)
    ensures
        p == 0 ==> !r,
        p >= HAZARD_ONE ==> r,
{
    let d: u64 = random_u64_below(HAZARD_ONE);
    d < p
}

} // verus!

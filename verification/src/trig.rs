//! Fixed-point sine and cosine.
//!
//! Angles are fractions of a full turn: an angle `t` in `[0, SCALE)` means
//! `2*pi*t/SCALE` radians. The sine over the first half turn is Bhaskara's
//! rational approximation, which is exact at the quarter-turn marks; the
//! cosine is derived from it so that a returned pair always satisfies
//! `c*c + s*s <= SCALE*SCALE`.
use crate::fp::{isqrt, sqrt_f, tdiv, SCALE};
use vstd::arithmetic::div_mod::{lemma_div_by_multiple, lemma_div_is_ordered};
use vstd::prelude::*;

verus! {

/// Half a turn, in angle units.
pub const HALF_TURN: i64 = 500_000;

/// A quarter turn, in angle units.
pub const QUARTER_TURN: i64 = 250_000;

/// Bhaskara's rational approximation of the sine over the first half turn,
/// scaled to fixed point: for `x` in `[0, HALF_TURN]` this approximates
/// `SCALE * sin(pi * x / HALF_TURN)`.
pub open spec fn s_sine_half(x: int) -> int {
    tdiv(
        16 * (SCALE as int) * (x * (HALF_TURN as int - x)),
        5 * (HALF_TURN as int) * (HALF_TURN as int) - 4 * (x * (HALF_TURN as int - x)),
    )
}

/// The sine of an angle `t` in `[0, SCALE)`, as a fixed-point scalar: the
/// half-turn approximation on the first half, its negation on the second.
pub open spec fn s_sine_turns(t: int) -> int {
    if t <= HALF_TURN as int {
        s_sine_half(t)
    } else {
        -s_sine_half(t - HALF_TURN as int)
    }
}

/// The cosine of an angle `t` in `[0, SCALE)`: the magnitude is taken from
/// the sine so that the pair lies inside the unit disk, the sign from the
/// quadrant.
pub open spec fn s_cos_turns(t: int) -> int {
    let s = s_sine_turns(t);
    let m = sqrt_f((SCALE as int) * (SCALE as int) - s * s);
    if t <= QUARTER_TURN as int || t >= 3 * QUARTER_TURN as int {
        m
    } else {
        -m
    }
}

/// The product `x * (HALF_TURN - x)` stays within a quarter of the square
/// of the half turn.
proof fn lemma_sine_prod_bound(x: int)
    by (nonlinear_arith)
    requires
        0 <= x <= HALF_TURN as int,
    ensures
        0 <= x * (HALF_TURN as int - x),
        4 * (x * (HALF_TURN as int - x)) <= (HALF_TURN as int) * (HALF_TURN as int),
{
    assert((2 * x - HALF_TURN as int) * (2 * x - HALF_TURN as int) >= 0);
}

/// Computes `s_sine_half` exactly, with its bounds and its exact values at
/// the quarter-turn marks.
pub fn sine_half(x: i64) -> (r: i64)
    requires
        0 <= x <= HALF_TURN,
    ensures
        r == s_sine_half(x as int),
        0 <= r <= SCALE,
        x == 0 ==> r == 0,
        x == HALF_TURN ==> r == 0,
        x == QUARTER_TURN ==> r == SCALE,
{
    proof {
        lemma_sine_prod_bound(x as int);
        assert((HALF_TURN as int) * (HALF_TURN as int) == 250_000_000_000) by (nonlinear_arith)
            requires
                HALF_TURN as int == 500_000,
        ;
        assert((x as int) * (HALF_TURN as int - x as int) <= 62_500_000_000);
    }
    let p: u128 = (x as u128) * ((HALF_TURN - x) as u128);
    let num: u128 = 16 * (SCALE as u128) * p;
    let den: u128 = 5 * (HALF_TURN as u128) * (HALF_TURN as u128) - 4 * p;
    let q: u128 = num / den;
    proof {
        let pi = (x as int) * (HALF_TURN as int - x as int);
        let deni = 5 * (HALF_TURN as int) * (HALF_TURN as int) - 4 * pi;
        assert(num as int == 16 * (SCALE as int) * pi);
        assert(den as int == deni);
        assert(1_000_000_000_000 <= deni <= 1_250_000_000_000);
        if x == 0 || x == HALF_TURN {
            assert(pi == 0);
            lemma_div_by_multiple(0, deni);
            assert(num as int == 0 * deni);
            assert(q == 0);
        }
        // num <= SCALE * den, because 20 * p <= 5 * HALF_TURN^2
        assert(16 * (SCALE as int) * pi <= (SCALE as int) * deni) by (nonlinear_arith)
            requires
                0 <= pi,
                4 * pi <= 250_000_000_000,
                deni == 5 * 250_000_000_000 - 4 * pi,
                SCALE as int == 1_000_000,
        ;
        lemma_div_is_ordered(num as int, (SCALE as int) * deni, deni);
        lemma_div_by_multiple(SCALE as int, deni);
        assert(q as int == tdiv(num as int, deni));
        if x == QUARTER_TURN {
            assert(pi == 62_500_000_000) by (nonlinear_arith)
                requires
                    x as int == 250_000,
                    HALF_TURN as int == 500_000,
                    pi == (x as int) * (HALF_TURN as int - x as int),
            ;
            assert(deni == 1_000_000_000_000);
            assert(num as int == 16 * (SCALE as int) * 62_500_000_000);
            assert((SCALE as int) * deni == num as int) by (nonlinear_arith)
                requires
                    SCALE as int == 1_000_000,
                    deni == 1_000_000_000_000,
                    num as int == 16 * 1_000_000 * 62_500_000_000,
            ;
            assert(q == SCALE);
        }
    }
    q as i64
}

/// The sine of an angle in `[0, SCALE)`, as a fixed-point scalar.
pub fn sine_turns(t: i64) -> (r: i64)
    requires
        0 <= t < SCALE,
    ensures
        r == s_sine_turns(t as int),
        -SCALE <= r <= SCALE,
{
    if t <= HALF_TURN {
        sine_half(t)
    } else {
        -sine_half(t - HALF_TURN)
    }
}

/// The cosine and sine of an angle in `[0, SCALE)`, as a fixed-point pair
/// lying inside the unit disk.
pub fn unit_vec(t: i64) -> (r: (i64, i64))
    requires
        0 <= t < SCALE,
    ensures
        r.0 == s_cos_turns(t as int),
        r.1 == s_sine_turns(t as int),
        -SCALE <= r.0 <= SCALE,
        -SCALE <= r.1 <= SCALE,
        (r.0 as int) * (r.0 as int) + (r.1 as int) * (r.1 as int) <= (SCALE as int) * (
        SCALE as int),
{
    let s = sine_turns(t);
    proof {
        assert(0 <= (s as int) * (s as int) <= (SCALE as int) * (SCALE as int))
            by (nonlinear_arith)
            requires
                -SCALE <= s <= SCALE,
        ;
    }
    let rest: u128 = ((SCALE as i128) * (SCALE as i128) - (s as i128) * (s as i128)) as u128;
    let m: u64 = isqrt(rest);
    proof {
        assert((m as int) * (m as int) <= rest as int);
        assert(m as int <= SCALE as int) by (nonlinear_arith)
            requires
                0 <= m as int,
                (m as int) * (m as int) <= rest as int,
                rest as int <= (SCALE as int) * (SCALE as int),
        ;
        assert((-(m as int)) * (-(m as int)) == (m as int) * (m as int)) by (nonlinear_arith);
    }
    let c: i64 = if t <= QUARTER_TURN || t >= 3 * QUARTER_TURN {
        m as i64
    } else {
        -(m as i64)
    };
    (c, s)
}

} // verus!

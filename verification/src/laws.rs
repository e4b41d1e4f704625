//! General properties of the simulation, stated and proved once.
use crate::cells::Cell;
use crate::fp::{clampi, mdc, tdiv, MAXV, SCALE};
use crate::organism::{
    expand_post, filled_from, gap_cell, oversized, s_contrib, s_net_force, s_net_force_upto,
    s_new_velocity, DAMPING,
};
use crate::vectors::{s_lsq, s_rsq, s_sub};
use vstd::arithmetic::div_mod::{lemma_fundamental_div_mod, lemma_fundamental_div_mod_converse};
use vstd::arithmetic::power::pow;
use vstd::prelude::*;

verus! {

/// The absolute value.
pub open spec fn abs(v: int) -> int {
    if v >= 0 {
        v
    } else {
        -v
    }
}

/// One application of the damping to a velocity component.
pub open spec fn damp1(v: int) -> int {
    mdc(v, DAMPING as int, SCALE as int)
}

/// `k` applications of the damping to a velocity component.
pub open spec fn damp_iter(v: int, k: nat) -> int
    decreases k,
{
    if k == 0 {
        v
    } else {
        damp1(damp_iter(v, (k - 1) as nat))
    }
}

/// Damping is exactly the truncated four fifths, and it never grows a
/// component: five times the damped magnitude is at most four times the
/// old one.
pub proof fn lemma_damp_step(w: int)
    requires
        -MAXV <= w <= MAXV,
    ensures
        damp1(w) == tdiv(4 * w, 5),
        5 * abs(damp1(w)) <= 4 * abs(w),
        abs(damp1(w)) <= abs(w),
{
    let a = if w >= 0 {
        w
    } else {
        -w
    };
    lemma_fundamental_div_mod(4 * a, 5);
    let q = (4 * a) / 5;
    let r = (4 * a) % 5;
    assert(800_000 * a == 1_000_000 * q + 200_000 * r);
    lemma_fundamental_div_mod_converse(800_000 * a, 1_000_000, q, 200_000 * r);
    assert((800_000 * a) / 1_000_000 == q);
    assert(5 * q <= 4 * a);
    assert(tdiv(w * DAMPING, SCALE as int) == (if w >= 0 {
        q
    } else {
        -q
    }));
    assert(clampi(q) == q && clampi(-q) == -q);
}

/// Damping decay: with zero net force a velocity component is damped once
/// per tick, so after `k` ticks its magnitude has shrunk by at least the
/// factor `(4/5)^k` — the fixed-point form of `v0 * 0.8^k`.
pub proof fn lemma_damping_decay(v: int, k: nat)
    requires
        -MAXV <= v <= MAXV,
    ensures
        pow(5, k) * abs(damp_iter(v, k)) <= pow(4, k) * abs(v),
        -MAXV <= damp_iter(v, k) <= MAXV,
    decreases k,
{
    vstd::arithmetic::power::lemma_pow_positive(5, k);
    vstd::arithmetic::power::lemma_pow_positive(4, k);
    if k == 0 {
        assert(pow(5, 0) == 1 && pow(4, 0) == 1) by {
            vstd::arithmetic::power::lemma_pow0(5);
            vstd::arithmetic::power::lemma_pow0(4);
        }
    } else {
        let km = (k - 1) as nat;
        lemma_damping_decay(v, km);
        let w = damp_iter(v, km);
        lemma_damp_step(w);
        let d = damp_iter(v, k);
        assert(d == damp1(w));
        vstd::arithmetic::power::lemma_pow_positive(5, km);
        vstd::arithmetic::power::lemma_pow_positive(4, km);
        assert(pow(5, k) == 5 * pow(5, km)) by {
            vstd::arithmetic::power::lemma_pow_adds(5, 1, km);
            vstd::arithmetic::power::lemma_pow1(5);
        }
        assert(pow(4, k) == 4 * pow(4, km)) by {
            vstd::arithmetic::power::lemma_pow_adds(4, 1, km);
            vstd::arithmetic::power::lemma_pow1(4);
        }
        assert(pow(5, km) * (5 * abs(d)) <= pow(5, km) * (4 * abs(w))) by (nonlinear_arith)
            requires
                5 * abs(d) <= 4 * abs(w),
                pow(5, km) > 0,
        ;
        assert(pow(5, km) * (4 * abs(w)) <= pow(4, km) * (4 * abs(v)) ==> (5 * pow(5, km)) * abs(
            d,
        ) <= (4 * pow(4, km)) * abs(v)) by (nonlinear_arith)
            requires
                pow(5, km) * (5 * abs(d)) <= pow(5, km) * (4 * abs(w)),
        ;
        assert(4 * (pow(5, km) * abs(w)) <= 4 * (pow(4, km) * abs(v)));
        assert(pow(5, km) * (4 * abs(w)) == 4 * (pow(5, km) * abs(w))) by (nonlinear_arith);
        assert(pow(4, km) * (4 * abs(v)) == 4 * (pow(4, km) * abs(v))) by (nonlinear_arith);
    }
}

/// Newton symmetry: within the cutoff, the force a cell at `p` receives
/// from a cell at `q` is the exact negation of the force the cell at `q`
/// receives from the one at `p` — and outside the cutoff both are zero, so
/// the contributions are opposite for every pair.
pub proof fn lemma_newton_symmetry(p: (int, int), q: (int, int), spatiality: int)
    ensures
        s_contrib(p, q, spatiality).0 == -s_contrib(q, p, spatiality).0,
        s_contrib(p, q, spatiality).1 == -s_contrib(q, p, spatiality).1,
{
    let d1 = s_sub(p, q);
    let d2 = s_sub(q, p);
    assert(d2.0 == -d1.0 && d2.1 == -d1.1);
    assert((-d1.0) * (-d1.0) == d1.0 * d1.0 && (-d1.1) * (-d1.1) == d1.1 * d1.1)
        by (nonlinear_arith);
    assert(s_rsq(d2) == s_rsq(d1));
    assert(s_lsq(d2) == s_lsq(d1));
    let l = s_lsq(d1);
    if l == 0 || l > 2 * spatiality {
    } else {
        let m = mdc(SCALE as int, SCALE as int, l);
        let len = crate::fp::sqrt_f(s_rsq(d1));
        if d1 == (0int, 0int) {
            assert(d2 == (0int, 0int));
        } else {
            assert(d2 != (0int, 0int));
            assert(s_rsq(d1) >= 1) by (nonlinear_arith)
                requires
                    d1.0 != 0 || d1.1 != 0,
                    s_rsq(d1) == d1.0 * d1.0 + d1.1 * d1.1,
            ;
            crate::fp::lemma_sqrt_exists(s_rsq(d1) as nat);
            assert((s_rsq(d1) as nat) as int == s_rsq(d1));
            assert(crate::fp::is_sqrt(s_rsq(d1), len));
            if len == 0 {
                assert(s_rsq(d1) < (0 + 1) * (0 + 1));
            }
            assert(len >= 1);
            assert((-d1.0) * m == -(d1.0 * m) && (-d1.1) * m == -(d1.1 * m)) by (nonlinear_arith);
            lemma_fundamental_div_mod_converse(0, len, 0, 0);
            assert(tdiv(-(d1.0 * m), len) == -tdiv(d1.0 * m, len));
            assert(tdiv(-(d1.1 * m), len) == -tdiv(d1.1 * m, len));
        }
    }
}

/// Degenerate pair safety: two coincident cells contribute nothing to each
/// other's force sum, so a degenerate pair never derails the step.
pub proof fn lemma_degenerate_pair(p: (int, int), q: (int, int), spatiality: int)
    requires
        p == q,
    ensures
        s_contrib(p, q, spatiality) == (0int, 0int),
{
    let d = s_sub(p, q);
    assert(d == (0int, 0int));
    assert(d.0 * d.0 == 0 && d.1 * d.1 == 0) by (nonlinear_arith)
        requires
            d.0 == 0,
            d.1 == 0,
    ;
    assert(s_rsq(d) == 0);
    assert(s_lsq(d) == 0);
}

/// A cell with every other cell out of range — beyond the cutoff or
/// coincident — feels no net force; its velocity is then only damped by
/// the tick.
pub proof fn lemma_isolated_cell(cells: Seq<Cell>, spatiality: int, i: int, j: int)
    requires
        forall|jj: int|
            0 <= jj < j && jj != i ==> s_contrib(
                cells[i].position@,
                (#[trigger] cells[jj]).position@,
                spatiality,
            ) == (0int, 0int),
    ensures
        s_net_force_upto(cells, spatiality, i, j) == (0int, 0int),
    decreases j,
{
    if j > 0 {
        lemma_isolated_cell(cells, spatiality, i, j - 1);
    }
}

/// With zero net force, the velocity after `expand` is exactly the damped
/// old velocity, componentwise.
pub proof fn lemma_zero_force_velocity(vel: (int, int), bias: int, mass: int)
    requires
        -MAXV <= vel.0 <= MAXV,
        -MAXV <= vel.1 <= MAXV,
    ensures
        s_new_velocity(vel, (0int, 0int), bias, mass) == (damp1(vel.0), damp1(vel.1)),
{
    let bm = mdc(bias, SCALE as int, mass);
    assert(0 * bm == 0) by (nonlinear_arith);
    assert(tdiv(0, SCALE as int) == 0);
    assert(clampi(vel.0 + 0) == vel.0 && clampi(vel.1 + 0) == vel.1);
}

/// Truncated halving of a component: its square shrinks to a quarter, and
/// the leftover half overshoots a quarter by at most the component itself
/// plus one.
proof fn lemma_half_squares(dx: int, hx: int)
    by (nonlinear_arith)
    requires
        hx == tdiv(dx, 2),
    ensures
        4 * (hx * hx) <= dx * dx,
        4 * ((dx - hx) * (dx - hx)) <= dx * dx + 2 * (if dx >= 0 {
            dx
        } else {
            -dx
        }) + 1,
{
    let n = if dx >= 0 {
        dx
    } else {
        -dx
    };
    assert(n == 2 * (n / 2) + n % 2 && 0 <= n % 2 < 2) by {
        lemma_fundamental_div_mod(n, 2);
    }
}

/// Gap-filling convergence, midpoint case: on an oversized edge of squared
/// length at most twice the threshold, the cell inserted at the exact
/// midpoint (noise off) leaves both sub-edges within the threshold, so one
/// pass closes such an edge. Stated away from the clamping boundary: the
/// endpoints lie in the middle half of the representable range and the
/// threshold below half its top, so no coordinate clamps.
pub proof fn lemma_midpoint_closes_moderate_gap(a: (int, int), b: (int, int), sp: int)
    requires
        1 <= sp <= 499_999_999_999_999,
        -500_000_000_000_000 <= a.0 <= 500_000_000_000_000,
        -500_000_000_000_000 <= a.1 <= 500_000_000_000_000,
        -500_000_000_000_000 <= b.0 <= 500_000_000_000_000,
        -500_000_000_000_000 <= b.1 <= 500_000_000_000_000,
        s_lsq(s_sub(b, a)) <= 2 * sp,
    ensures
        ({
            let m = crate::vectors::s_add(a, crate::vectors::s_scale(s_sub(b, a), 500_000));
            s_lsq(s_sub(m, a)) <= sp && s_lsq(s_sub(b, m)) <= sp
        }),
{
    let si = SCALE as int;
    let dx = b.0 - a.0;
    let dy = b.1 - a.1;
    let d = s_sub(b, a);
    assert(d == (dx, dy));
    let rsq = dx * dx + dy * dy;
    assert(rsq >= 0 && dx * dx >= 0 && dy * dy >= 0) by (nonlinear_arith)
        requires
            rsq == dx * dx + dy * dy,
    ;
    // the squared length does not clamp: it is at most 2 * sp < MAXV
    lemma_fundamental_div_mod(rsq, si);
    assert(tdiv(rsq, si) == rsq / si);
    assert(clampi(rsq / si) <= 2 * sp && 2 * sp < MAXV);
    assert(rsq / si <= 2 * sp);
    assert(rsq <= 2 * sp * si + si - 1);
    // the interpolation by one half is the truncated halving
    let hx = tdiv(dx, 2);
    let hy = tdiv(dy, 2);
    assert(mdc(dx, 500_000, si) == hx && mdc(dy, 500_000, si) == hy) by {
        lemma_half_is_half(dx);
        lemma_half_is_half(dy);
        assert(-MAXV <= hx <= MAXV && -MAXV <= hy <= MAXV);
    }
    let m = crate::vectors::s_add(a, crate::vectors::s_scale(d, 500_000));
    assert(m == (clampi(a.0 + hx), clampi(a.1 + hy)));
    // nothing clamps: the midpoint stays in range, and so do the sub-edges
    assert(-MAXV <= 2 * hx <= MAXV && -MAXV <= 2 * hy <= MAXV && -MAXV <= dx - hx + dx - hx
        <= MAXV);
    assert(m == (a.0 + hx, a.1 + hy));
    assert(s_sub(m, a) == (hx, hy));
    assert(s_sub(b, m) == (dx - hx, dy - hy));
    // both sub-edges have raw squared length at most sp * SCALE
    lemma_half_squares(dx, hx);
    lemma_half_squares(dy, hy);
    let adx = if dx >= 0 {
        dx
    } else {
        -dx
    };
    let ady = if dy >= 0 {
        dy
    } else {
        -dy
    };
    assert(adx * adx == dx * dx && ady * ady == dy * dy) by (nonlinear_arith)
        requires
            adx == (if dx >= 0 {
                dx
            } else {
                -dx
            }),
            ady == (if dy >= 0 {
                dy
            } else {
                -dy
            }),
    ;
    assert(adx * adx <= rsq && ady * ady <= rsq);
    // a component longer than half of sp * SCALE would overshoot the
    // squared-length bound
    lemma_component_bound(adx, rsq, sp);
    lemma_component_bound(ady, rsq, sp);
    let rsq1 = hx * hx + hy * hy;
    let rsq2 = (dx - hx) * (dx - hx) + (dy - hy) * (dy - hy);
    assert(4 * rsq1 <= rsq);
    assert(4 * rsq2 <= rsq + 2 * adx + 2 * ady + 2);
    assert(rsq1 <= sp * si + si - 1 && rsq2 <= sp * si + si - 1) by (nonlinear_arith)
        requires
            4 * rsq1 <= rsq,
            4 * rsq2 <= rsq + 2 * adx + 2 * ady + 2,
            rsq <= 2 * sp * si + si - 1,
            2 * adx <= sp * si,
            2 * ady <= sp * si,
            1 <= sp,
            si == 1_000_000,
    ;
    assert(rsq1 >= 0 && rsq2 >= 0) by (nonlinear_arith)
        requires
            rsq1 == hx * hx + hy * hy,
            rsq2 == (dx - hx) * (dx - hx) + (dy - hy) * (dy - hy),
    ;
    lemma_div_le(rsq1, sp, si);
    lemma_div_le(rsq2, sp, si);
}

/// A component of an edge whose raw squared length is within roughly twice
/// `sp * SCALE` is itself at most half of `sp * SCALE`.
proof fn lemma_component_bound(adx: int, rsq: int, sp: int)
    by (nonlinear_arith)
    requires
        0 <= adx,
        adx * adx <= rsq,
        rsq <= 2 * sp * 1_000_000 + 999_999,
        1 <= sp,
    ensures
        2 * adx <= sp * 1_000_000,
{
    if 2 * adx > sp * 1_000_000 {
        assert((2 * adx) * (2 * adx) > (sp * 1_000_000) * (sp * 1_000_000));
        assert((sp * 1_000_000) * (sp * 1_000_000) >= 4 * (2 * sp * 1_000_000 + 999_999));
    }
}

/// Scaling by the fixed-point one half is the truncated halving.
proof fn lemma_half_is_half(dx: int)
    ensures
        tdiv(dx * 500_000, 1_000_000) == tdiv(dx, 2),
{
    let n = if dx >= 0 {
        dx
    } else {
        -dx
    };
    lemma_fundamental_div_mod(n, 2);
    let q = n / 2;
    let r = n % 2;
    assert(n * 500_000 == 1_000_000 * q + 500_000 * r) by (nonlinear_arith)
        requires
            n == 2 * q + r,
    ;
    lemma_fundamental_div_mod_converse(n * 500_000, 1_000_000, q, 500_000 * r);
    assert((n * 500_000) / 1_000_000 == q);
    assert(dx * 500_000 == (if dx >= 0 {
        n * 500_000
    } else {
        -(n * 500_000)
    })) by (nonlinear_arith)
        requires
            n == (if dx >= 0 {
                dx
            } else {
                -dx
            }),
    ;
}

/// A nonnegative value at most `sp * d + d - 1` divides by `d` to at most
/// `sp`, and the clamped quotient stays there too.
proof fn lemma_div_le(v: int, sp: int, d: int)
    requires
        0 <= v,
        0 < d,
        1 <= sp <= MAXV,
        v <= sp * d + d - 1,
    ensures
        clampi(tdiv(v, d)) <= sp,
{
    vstd::arithmetic::div_mod::lemma_div_is_ordered(v, sp * d + d - 1, d);
    lemma_fundamental_div_mod_converse(sp * d + d - 1, d, sp, d - 1);
    vstd::arithmetic::div_mod::lemma_div_pos_is_pos(v, d);
}

/// How many ring edges from `lo` on are oversized.
pub open spec fn n_oversized(cells: Seq<Cell>, spatiality: int, lo: int) -> int
    decreases cells.len() - lo,
{
    let n = cells.len() as int;
    if lo < 0 || lo >= n {
        0
    } else {
        let b = if lo + 1 == n {
            cells[0]
        } else {
            cells[lo + 1]
        };
        (if oversized(cells[lo], b, spatiality) {
            1int
        } else {
            0int
        }) + n_oversized(cells, spatiality, lo + 1)
    }
}

/// Gap filling inserts exactly one cell per oversized edge per pass: the
/// refined ring is longer by exactly the number of oversized edges.
pub proof fn lemma_one_insert_per_gap(
    cells: Seq<Cell>,
    ts: Seq<int>,
    spatiality: int,
    lo: int,
    nid: u64,
)
    requires
        0 <= lo <= cells.len(),
    ensures
        filled_from(cells, ts, spatiality, lo, nid).len() == (cells.len() - lo) + n_oversized(
            cells,
            spatiality,
            lo,
        ),
    decreases cells.len() - lo,
{
    if lo < cells.len() {
        let b = if lo + 1 == cells.len() as int {
            cells[0]
        } else {
            cells[lo + 1]
        };
        if oversized(cells[lo], b, spatiality) {
            lemma_one_insert_per_gap(cells, ts, spatiality, lo + 1, (nid + 1) as u64);
        } else {
            lemma_one_insert_per_gap(cells, ts, spatiality, lo + 1, nid);
        }
    }
}

} // verus!

//! 2-D vectors in fixed-point coordinates.
//!
//! A component stores its real value times [`SCALE`]. Every operation
//! clamps its result into `[-MAXV, MAXV]`, so all operations are total and
//! every `Vector2` ever built keeps its components in that range.
use crate::fp::{
    clampi, is_sqrt, mdc, mul_div_clamp, sqrt_f, tdiv, isqrt, MAXV, SCALE,
};
use crate::trig::{s_cos_turns, s_sine_turns, unit_vec};
use vstd::prelude::*;

verus! {

/// `v` is the disk sample built from the random draws `u` (radial) and `t`
/// (angular): radial coordinate `sqrt(u) * radius` (area-uniform), angle a
/// uniform fraction of a turn.
pub open spec fn disk_sample(v: (int, int), radius: int, u: int, t: int) -> bool {
    let d = mdc(sqrt_f(u * SCALE), radius, SCALE as int);
    &&& 0 <= u < SCALE
    &&& 0 <= t < SCALE
    &&& v == (mdc(d, s_cos_turns(t), SCALE as int), mdc(d, s_sine_turns(t), SCALE as int))
}

/// The vector with the given components, for specifications that need to
/// build one (meaningful when both lie in the clamped range; see
/// [`lemma_v_make`]).
pub closed spec fn v_make(p: (int, int)) -> Vector2 {
    Vector2 { x: p.0 as i64, y: p.1 as i64 }
}

/// In the clamped range, `v_make` has exactly the given components.
pub proof fn lemma_v_make(p: (int, int))
    requires
        -MAXV <= p.0 <= MAXV,
        -MAXV <= p.1 <= MAXV,
    ensures
        v_make(p)@ == p,
{
}

/// A rational approximation of the arctangent of a ratio `z` in
/// `[0, SCALE]` (the ratio is fixed point), in fixed-point degrees: exact
/// at `0` (giving `0`) and at `1` (giving `45` degrees).
pub open spec fn s_atan_unit(z: int) -> int {
    let g = mdc(z - SCALE as int, 1400 * (SCALE as int) + 383 * z, 100 * (SCALE as int));
    mdc(z, 45 * (SCALE as int) - g, SCALE as int)
}

/// The direction of a vector in fixed-point degrees in
/// `[-180 * SCALE, 180 * SCALE]`, measured like `atan2`: the angle is
/// found in the first octant from the ratio of the component magnitudes,
/// then reflected into the vector's quadrant. The zero vector maps to `0`.
pub open spec fn s_angle(a: (int, int)) -> int {
    if a == (0int, 0int) {
        0int
    } else {
        let ax = if a.0 >= 0 {
            a.0
        } else {
            -a.0
        };
        let ay = if a.1 >= 0 {
            a.1
        } else {
            -a.1
        };
        let base = if ax >= ay {
            s_atan_unit(tdiv(ay * SCALE, ax))
        } else {
            90 * (SCALE as int) - s_atan_unit(tdiv(ax * SCALE, ay))
        };
        if a.0 >= 0 && a.1 >= 0 {
            base
        } else if a.0 < 0 && a.1 >= 0 {
            180 * (SCALE as int) - base
        } else if a.0 < 0 {
            -(180 * (SCALE as int) - base)
        } else {
            -base
        }
    }
}

/// Computes `s_atan_unit` exactly, with its bounds and endpoint values.
fn atan_unit(z: i64) -> (r: i64)
    requires
        0 <= z <= SCALE,
    ensures
        r == s_atan_unit(z as int),
        0 <= r <= 63 * SCALE,
        z == 0 ==> r == 0,
        z == SCALE ==> r == 45 * SCALE,
{
    let g = mul_div_clamp(z - SCALE, 1400 * SCALE + 383 * z, 100 * SCALE);
    proof {
        let zi = z as int;
        let si = SCALE as int;
        let num = (zi - si) * (1400 * si + 383 * zi);
        assert(-1_783_000_000_000_000 <= num <= 0) by (nonlinear_arith)
            requires
                0 <= zi <= si,
                si == 1_000_000,
                num == (zi - si) * (1400 * si + 383 * zi),
        ;
        vstd::arithmetic::div_mod::lemma_div_pos_is_pos(-num, 100 * si);
        vstd::arithmetic::div_mod::lemma_div_is_ordered(-num, 1_783_000_000_000_000, 100 * si);
        assert(1_783_000_000_000_000int / 100_000_000int == 17_830_000);
        assert(-18_000_000 <= tdiv(num, 100 * si) <= 0);
        assert(g as int == tdiv(num, 100 * si));
        if z == SCALE {
            assert(num == 0 * (1400 * si + 383 * zi)) by (nonlinear_arith)
                requires
                    zi == si,
                    num == (zi - si) * (1400 * si + 383 * zi),
            ;
            assert(g == 0);
        }
    }
    let f = mul_div_clamp(z, 45 * SCALE - g, SCALE);
    proof {
        let zi = z as int;
        let si = SCALE as int;
        let b = 45 * si - g as int;
        assert(0 <= zi * b <= si * (63 * si)) by (nonlinear_arith)
            requires
                0 <= zi <= si,
                0 < b <= 63 * si,
                si == 1_000_000,
        ;
        vstd::arithmetic::div_mod::lemma_div_pos_is_pos(zi * b, si);
        vstd::arithmetic::div_mod::lemma_div_is_ordered(zi * b, si * (63 * si), si);
        vstd::arithmetic::div_mod::lemma_div_by_multiple(63 * si, si);
        assert((63 * si) * si == si * (63 * si)) by (nonlinear_arith);
        if z == 0 {
            assert(zi * b == 0 * b) by (nonlinear_arith)
                requires
                    zi == 0,
            ;
            assert(tdiv(0, si) == 0);
        }
        if z == SCALE {
            assert(zi * b == (45 * si) * si) by (nonlinear_arith)
                requires
                    zi == si,
                    b == 45 * si,
            ;
            vstd::arithmetic::div_mod::lemma_div_by_multiple(45 * si, si);
        }
    }
    f
}

/// Squaring keeps order on nonnegative integers.
proof fn lemma_sq_le(a: int, b: int)
    by (nonlinear_arith)
    requires
        0 <= a <= b,
    ensures
        a * a <= b * b,
{
}

/// A 2-D vector; components are fixed-point scalars.
#[derive(Clone, Copy, PartialEq, Eq, Structural, Debug)]
pub struct Vector2 {
    x: i64,
    y: i64,
}

/// Componentwise clamped sum.
pub open spec fn s_add(a: (int, int), b: (int, int)) -> (int, int) {
    (clampi(a.0 + b.0), clampi(a.1 + b.1))
}

/// Componentwise clamped difference.
pub open spec fn s_sub(a: (int, int), b: (int, int)) -> (int, int) {
    (clampi(a.0 - b.0), clampi(a.1 - b.1))
}

/// Componentwise negation.
pub open spec fn s_neg(a: (int, int)) -> (int, int) {
    (-a.0, -a.1)
}

/// Scaling by a fixed-point factor `k`.
pub open spec fn s_scale(a: (int, int), k: int) -> (int, int) {
    (mdc(a.0, k, SCALE as int), mdc(a.1, k, SCALE as int))
}

/// The squared length in raw units (real squared length times `SCALE`
/// squared); exact, no rounding.
pub open spec fn s_rsq(a: (int, int)) -> int {
    a.0 * a.0 + a.1 * a.1
}

/// The squared length as a fixed-point scalar.
pub open spec fn s_lsq(a: (int, int)) -> int {
    clampi(tdiv(s_rsq(a), SCALE as int))
}

/// The length as a fixed-point scalar: the integer square root of the raw
/// squared length.
pub open spec fn s_len(a: (int, int)) -> int {
    sqrt_f(s_rsq(a))
}

/// The vector rescaled to magnitude `m`, direction kept; the zero vector
/// (which has no direction) maps to itself.
pub open spec fn s_mag(a: (int, int), m: int) -> (int, int) {
    if a == (0int, 0int) {
        (0int, 0int)
    } else {
        (mdc(a.0, m, s_len(a)), mdc(a.1, m, s_len(a)))
    }
}

/// The vector unchanged when its length is under `limit`, else rescaled to
/// magnitude `limit`.
pub open spec fn s_clamp_mag(a: (int, int), limit: int) -> (int, int) {
    if s_len(a) < limit {
        a
    } else {
        s_mag(a, limit)
    }
}

/// `|a * b| <= ma * mb` when `|a| <= ma` and `|b| <= mb`.
proof fn lemma_prod_bound(a: int, b: int, ma: int, mb: int)
    by (nonlinear_arith)
    requires
        -ma <= a <= ma,
        -mb <= b <= mb,
        0 <= ma,
        0 <= mb,
    ensures
        -(ma * mb) <= a * b <= ma * mb,
        0 <= a * a <= ma * ma,
{
}

/// Clamp an `i64` into the representable range.
fn clamp64(v: i64) -> (r: i64)
    ensures
        r == clampi(v as int),
{
    if v > MAXV {
        MAXV
    } else if v < -MAXV {
        -MAXV
    } else {
        v
    }
}

/// Clamp an `i128` into the representable range.
fn clamp128(v: i128) -> (r: i64)
    ensures
        r == clampi(v as int),
{
    if v > MAXV as i128 {
        MAXV
    } else if v < -MAXV as i128 {
        -MAXV
    } else {
        v as i64
    }
}

/// Computes `clampi(tdiv(p, SCALE))` for an arbitrary `i128`.
fn div_scale_clamp(p: i128) -> (r: i64)
    requires
        p > i128::MIN,
    ensures
        r == clampi(tdiv(p as int, SCALE as int)),
{
    let neg: bool = p < 0;
    let m: u128 = if neg {
        (-p) as u128
    } else {
        p as u128
    };
    let q: u128 = m / (SCALE as u128);
    let qc: i64 = if q > (MAXV as u128) {
        MAXV
    } else {
        q as i64
    };
    if neg {
        -qc
    } else {
        qc
    }
}

impl Vector2 {
    /// Components stay in the clamped range; established at every
    /// construction and relied on for overflow-freedom everywhere.
    #[verifier::type_invariant]
    pub closed spec fn inv(self) -> bool {
        -MAXV <= self.x <= MAXV && -MAXV <= self.y <= MAXV
    }

    /// The mathematical value: the pair of components as integers.
    pub closed spec fn view(self) -> (int, int) {
        (self.x as int, self.y as int)
    }

    /// The components of any vector are clamped; a no-op whose contract
    /// hands that range to callers.
    pub fn bounds(&self)
        ensures
            -MAXV <= self@.0 <= MAXV,
            -MAXV <= self@.1 <= MAXV,
    {
        proof {
            use_type_invariant(*self);
        }
    }

    /// Two vectors are equal exactly when their components are.
    pub proof fn lemma_eq_view(a: Vector2, b: Vector2)
        ensures
            (a == b) <==> (a@ == b@),
    {
    }

    /// Builds the vector with the given components, clamped.
    pub fn new(x: i64, y: i64) -> (v: Self)
        ensures
            v@ == (clampi(x as int), clampi(y as int)),
    {
        Vector2 { x: clamp64(x), y: clamp64(y) }
    }

    /// The zero vector.
    pub fn default() -> (v: Self)
        ensures
            v@ == (0int, 0int),
    {
        Vector2 { x: 0, y: 0 }
    }

    /// The direction of the vector in fixed-point degrees in
    /// `[-180 * SCALE, 180 * SCALE]`, as `atan2` measures it; the zero
    /// vector maps to zero degrees.
    pub fn angle(&self) -> (r: i64)
        ensures
            r == s_angle(self@),
            -180 * SCALE <= r <= 180 * SCALE,
            self@.1 == 0 && self@.0 > 0 ==> r == 0,
            self@.0 == 0 && self@.1 > 0 ==> r == 90 * SCALE,
            self@.1 == 0 && self@.0 < 0 ==> r == 180 * SCALE,
            self@.0 == 0 && self@.1 < 0 ==> r == -90 * SCALE,
    {
        proof {
            use_type_invariant(*self);
        }
        if self.x == 0 && self.y == 0 {
            return 0;
        }
        let ax = if self.x >= 0 {
            self.x
        } else {
            -self.x
        };
        let ay = if self.y >= 0 {
            self.y
        } else {
            -self.y
        };
        let base: i64;
        if ax >= ay {
            proof {
                assert(ax >= 1);
                assert((ay as int) * (SCALE as int) <= (ax as int) * (SCALE as int))
                    by (nonlinear_arith)
                    requires
                        0 <= ay as int <= ax as int,
                        SCALE as int > 0,
                ;
                assert(0 <= (ay as int) * (SCALE as int)) by (nonlinear_arith)
                    requires
                        0 <= ay as int,
                        SCALE as int > 0,
                ;
                assert((ax as int) * (SCALE as int) == (SCALE as int) * (ax as int))
                    by (nonlinear_arith);
                vstd::arithmetic::div_mod::lemma_div_is_ordered(
                    (ay as int) * (SCALE as int),
                    (SCALE as int) * (ax as int),
                    ax as int,
                );
                vstd::arithmetic::div_mod::lemma_div_by_multiple(SCALE as int, ax as int);
                vstd::arithmetic::div_mod::lemma_div_pos_is_pos(
                    (ay as int) * (SCALE as int),
                    ax as int,
                );
            }
            let z = ((ay as u128) * (SCALE as u128) / (ax as u128)) as i64;
            proof {
                if ay == 0 {
                    vstd::arithmetic::div_mod::lemma_fundamental_div_mod_converse(
                        0,
                        ax as int,
                        0,
                        0,
                    );
                }
            }
            base = atan_unit(z);
        } else {
            proof {
                assert(ay >= 1);
                assert((ax as int) * (SCALE as int) <= (ay as int) * (SCALE as int)
                    && 0 <= (ax as int) * (SCALE as int) && (ay as int) * (SCALE as int) == (
                SCALE as int) * (ay as int)) by (nonlinear_arith)
                    requires
                        0 <= ax as int <= ay as int,
                        SCALE as int > 0,
                ;
                vstd::arithmetic::div_mod::lemma_div_is_ordered(
                    (ax as int) * (SCALE as int),
                    (SCALE as int) * (ay as int),
                    ay as int,
                );
                vstd::arithmetic::div_mod::lemma_div_by_multiple(SCALE as int, ay as int);
                vstd::arithmetic::div_mod::lemma_div_pos_is_pos(
                    (ax as int) * (SCALE as int),
                    ay as int,
                );
            }
            let z = ((ax as u128) * (SCALE as u128) / (ay as u128)) as i64;
            proof {
                if ax == 0 {
                    vstd::arithmetic::div_mod::lemma_fundamental_div_mod_converse(
                        0,
                        ay as int,
                        0,
                        0,
                    );
                }
            }
            base = 90 * SCALE - atan_unit(z);
        }
        if self.x >= 0 && self.y >= 0 {
            base
        } else if self.x < 0 && self.y >= 0 {
            180 * SCALE - base
        } else if self.x < 0 {
            -(180 * SCALE - base)
        } else {
            -base
        }
    }

    /// The pair of components.
    pub fn get_components(&self) -> (r: (i64, i64))
        ensures
            (r.0 as int, r.1 as int) == self@,
    {
        (self.x, self.y)
    }

    /// Translates the vector in place by `(x, y)`, clamped.
    pub fn offset(&mut self, x: i64, y: i64)
        ensures
            final(self)@ == s_add(old(self)@, (x as int, y as int)),
    {
        proof {
            use_type_invariant(*self);
        }
        let nx = clamp128((self.x as i128) + (x as i128));
        let ny = clamp128((self.y as i128) + (y as i128));
        *self = Vector2 { x: nx, y: ny };
    }

    /// Componentwise sum, clamped.
    pub fn add(self, rhs: Self) -> (r: Self)
        ensures
            r@ == s_add(self@, rhs@),
    {
        proof {
            use_type_invariant(self);
            use_type_invariant(rhs);
        }
        Vector2 {
            x: clamp128((self.x as i128) + (rhs.x as i128)),
            y: clamp128((self.y as i128) + (rhs.y as i128)),
        }
    }

    /// Componentwise difference, clamped.
    pub fn sub(self, rhs: Self) -> (r: Self)
        ensures
            r@ == s_sub(self@, rhs@),
    {
        proof {
            use_type_invariant(self);
            use_type_invariant(rhs);
        }
        Vector2 {
            x: clamp128((self.x as i128) - (rhs.x as i128)),
            y: clamp128((self.y as i128) - (rhs.y as i128)),
        }
    }

    /// The opposite vector.
    pub fn neg(self) -> (r: Self)
        ensures
            r@ == s_neg(self@),
    {
        proof {
            use_type_invariant(self);
        }
        Vector2 { x: -self.x, y: -self.y }
    }

    /// Scales by the fixed-point factor `k`.
    pub fn scale(self, k: i64) -> (r: Self)
        ensures
            r@ == s_scale(self@, k as int),
    {
        Vector2 { x: mul_div_clamp(self.x, k, SCALE), y: mul_div_clamp(self.y, k, SCALE) }
    }

    /// The dot product, as a fixed-point scalar.
    pub fn dot(&self, other: Vector2) -> (r: i64)
        ensures
            r == clampi(tdiv(self@.0 * other@.0 + self@.1 * other@.1, SCALE as int)),
    {
        proof {
            use_type_invariant(*self);
            use_type_invariant(other);
            lemma_prod_bound(self@.0, other@.0, MAXV as int, MAXV as int);
            lemma_prod_bound(self@.1, other@.1, MAXV as int, MAXV as int);
        }
        let px: i128 = (self.x as i128) * (other.x as i128);
        let py: i128 = (self.y as i128) * (other.y as i128);
        div_scale_clamp(px + py)
    }

    /// The squared length, as a fixed-point scalar.
    pub fn length_sqr(&self) -> (r: i64)
        ensures
            r == s_lsq(self@),
            0 <= r <= MAXV,
    {
        proof {
            use_type_invariant(*self);
            lemma_prod_bound(self@.0, self@.0, MAXV as int, MAXV as int);
            lemma_prod_bound(self@.1, self@.1, MAXV as int, MAXV as int);
        }
        let px: i128 = (self.x as i128) * (self.x as i128);
        let py: i128 = (self.y as i128) * (self.y as i128);
        div_scale_clamp(px + py)
    }

    /// The length, as a fixed-point scalar: the integer square root of the
    /// raw squared length.
    pub fn length(&self) -> (r: i64)
        ensures
            r == s_len(self@),
            0 <= r,
            is_sqrt(s_rsq(self@), r as int),
    {
        proof {
            use_type_invariant(*self);
            lemma_prod_bound(self@.0, self@.0, MAXV as int, MAXV as int);
            lemma_prod_bound(self@.1, self@.1, MAXV as int, MAXV as int);
        }
        let px: i128 = (self.x as i128) * (self.x as i128);
        let py: i128 = (self.y as i128) * (self.y as i128);
        let n: u128 = (px + py) as u128;
        let root: u64 = isqrt(n);
        proof {
            assert((root as int) * (root as int) <= n as int);
            assert(root as int <= 2_000_000_000_000_000) by (nonlinear_arith)
                requires
                    0 <= root as int,
                    (root as int) * (root as int) <= n as int,
                    n as int <= 2_000_000_000_000_000_000_000_000_000_000,
            ;
        }
        root as i64
    }

    /// The vector rescaled to magnitude `magnitude` (a fixed-point scalar),
    /// direction kept. The zero vector has no direction and is returned
    /// unchanged: the degenerate case is absorbed, never an error.
    pub fn mag(self, magnitude: i64) -> (r: Self)
        ensures
            r@ == s_mag(self@, magnitude as int),
    {
        if self.x == 0 && self.y == 0 {
            Vector2 { x: 0, y: 0 }
        } else {
            let len = self.length();
            proof {
                assert(s_rsq(self@) >= 1) by (nonlinear_arith)
                    requires
                        self@.0 != 0 || self@.1 != 0,
                        s_rsq(self@) == self@.0 * self@.0 + self@.1 * self@.1,
                ;
                if len == 0 {
                    assert(s_rsq(self@) < (0 + 1) * (0 + 1));
                }
                assert(len >= 1);
            }
            Vector2 {
                x: mul_div_clamp(self.x, magnitude, len),
                y: mul_div_clamp(self.y, magnitude, len),
            }
        }
    }

    /// The unit vector with this vector's direction (fixed-point magnitude
    /// `SCALE`); the zero vector maps to itself.
    pub fn norm(self) -> (r: Self)
        ensures
            r@ == s_mag(self@, SCALE as int),
    {
        self.mag(SCALE)
    }

    /// The vector unchanged when shorter than `limit`, else rescaled to
    /// magnitude `limit`.
    pub fn clamp_mag(self, limit: i64) -> (r: Self)
        ensures
            r@ == s_clamp_mag(self@, limit as int),
    {
        let len = self.length();
        if len < limit {
            self
        } else {
            self.mag(limit)
        }
    }

    /// A random vector inside the disk of the given radius around the
    /// origin: the radial coordinate is `sqrt(u) * radius` for a uniform
    /// `u` (area-uniform, not radius-uniform), the angle a uniform
    /// fraction of a turn. Every sample lies inside the disk.
    pub fn random_in_radius(radius: i64) -> (v: Self)
        requires
            0 <= radius,
        ensures
            s_rsq(v@) <= (radius as int) * (radius as int),
            exists|u: int, t: int| disk_sample(v@, radius as int, u, t),
    {
        let u = crate::rng::random_unit();
        let t = crate::rng::random_unit();
        let v = Self::disk_point(radius, u, t);
        proof {
            assert(disk_sample(v@, radius as int, u as int, t as int));
        }
        v
    }

    /// The deterministic core of disk sampling: the point the draws `u`
    /// (radial) and `t` (angular) map to. The radial coordinate is
    /// `sqrt(u) * radius` — area-uniform, not radius-uniform — and the
    /// angle is the fraction `t` of a turn; the point always lies inside
    /// the disk. Verified for every pair of draws, so the sampler above is
    /// just two draws handed to this function.
    pub fn disk_point(radius: i64, u: i64, t: i64) -> (v: Self)
        requires
            0 <= radius,
            0 <= u < SCALE,
            0 <= t < SCALE,
        ensures
            disk_sample(v@, radius as int, u as int, t as int),
            s_rsq(v@) <= (radius as int) * (radius as int),
    {
        proof {
            assert((u as int) * (SCALE as int) <= 1_000_000_000_000) by (nonlinear_arith)
                requires
                    0 <= (u as int) && (u as int) < 1_000_000,
                    SCALE as int == 1_000_000,
            ;
        }
        let root64: u64 = isqrt((u as u128) * (SCALE as u128));
        proof {
            if root64 as int >= SCALE as int {
                lemma_sq_le(SCALE as int, root64 as int);
                assert((u as int) * (SCALE as int) < (SCALE as int) * (SCALE as int))
                    by (nonlinear_arith)
                    requires
                        0 <= (u as int) && (u as int) < (SCALE as int),
                        SCALE as int > 0,
                ;
                assert(false);
            }
        }
        let root: i64 = root64 as i64;
        let d: i64 = mul_div_clamp(root, radius, SCALE);
        proof {
            assert((root as int) * (radius as int) <= (SCALE as int) * (radius as int))
                by (nonlinear_arith)
                requires
                    0 <= root as int <= SCALE as int,
                    0 <= radius as int,
            ;
            assert(0 <= (root as int) * (radius as int)) by (nonlinear_arith)
                requires
                    0 <= root as int,
                    0 <= radius as int,
            ;
            vstd::arithmetic::div_mod::lemma_div_is_ordered(
                (root as int) * (radius as int),
                (SCALE as int) * (radius as int),
                SCALE as int,
            );
            vstd::arithmetic::div_mod::lemma_div_by_multiple(radius as int, SCALE as int);
            assert(0 <= d <= radius);
        }
        let cs = unit_vec(t);
        let c = cs.0;
        let s = cs.1;
        let x = mul_div_clamp(d, c, SCALE);
        let y = mul_div_clamp(d, s, SCALE);
        proof {
            let si = SCALE as int;
            let ac = if c as int >= 0 { c as int } else { -(c as int) };
            let as_ = if s as int >= 0 { s as int } else { -(s as int) };
            let qa = (d as int) * ac / si;
            let qb = (d as int) * as_ / si;
            assert(0 <= (d as int) * ac && (c as int) * (c as int) == ac * ac)
                by (nonlinear_arith)
                requires
                    0 <= d as int,
                    ac == (if c as int >= 0 { c as int } else { -(c as int) }),
            ;
            assert(0 <= (d as int) * as_ && (s as int) * (s as int) == as_ * as_)
                by (nonlinear_arith)
                requires
                    0 <= d as int,
                    as_ == (if s as int >= 0 { s as int } else { -(s as int) }),
            ;
            assert((d as int) * (c as int) == (if c as int >= 0 {
                (d as int) * ac
            } else {
                -((d as int) * ac)
            })) by (nonlinear_arith)
                requires
                    ac == (if c as int >= 0 { c as int } else { -(c as int) }),
            ;
            assert((d as int) * (s as int) == (if s as int >= 0 {
                (d as int) * as_
            } else {
                -((d as int) * as_)
            })) by (nonlinear_arith)
                requires
                    as_ == (if s as int >= 0 { s as int } else { -(s as int) }),
            ;
            vstd::arithmetic::div_mod::lemma_div_pos_is_pos((d as int) * ac, si);
            vstd::arithmetic::div_mod::lemma_div_pos_is_pos((d as int) * as_, si);
            assert(x as int == clampi(tdiv((d as int) * (c as int), si)));
            assert(-qa <= x as int <= qa);
            assert(-qb <= y as int <= qb);
            // squares of the truncated quotients are bounded by the exact ones
            vstd::arithmetic::div_mod::lemma_fundamental_div_mod((d as int) * ac, si);
            vstd::arithmetic::div_mod::lemma_fundamental_div_mod((d as int) * as_, si);
            vstd::arithmetic::div_mod::lemma_mod_bound((d as int) * ac, si);
            vstd::arithmetic::div_mod::lemma_mod_bound((d as int) * as_, si);
            assert(qa * si <= (d as int) * ac);
            assert(qb * si <= (d as int) * as_);
            assert(qa * qa + qb * qb <= (d as int) * (d as int)) by (nonlinear_arith)
                requires
                    si == 1_000_000,
                    0 <= qa,
                    0 <= qb,
                    qa * si <= (d as int) * ac,
                    qb * si <= (d as int) * as_,
                    0 <= (d as int) * ac,
                    0 <= (d as int) * as_,
                    ac * ac + as_ * as_ <= si * si,
                    0 <= d as int,
            {
                assert((qa * si) * (qa * si) <= ((d as int) * ac) * ((d as int) * ac));
                assert((qb * si) * (qb * si) <= ((d as int) * as_) * ((d as int) * as_));
                assert(((d as int) * ac) * ((d as int) * ac) + ((d as int) * as_) * ((d as int)
                    * as_) == (d as int) * (d as int) * (ac * ac + as_ * as_));
                assert((d as int) * (d as int) * (ac * ac + as_ * as_) <= (d as int) * (d as int)
                    * (si * si));
            }
            assert((x as int) * (x as int) <= qa * qa) by (nonlinear_arith)
                requires
                    -qa <= x as int <= qa,
                    0 <= qa,
            ;
            assert((y as int) * (y as int) <= qb * qb) by (nonlinear_arith)
                requires
                    -qb <= y as int <= qb,
                    0 <= qb,
            ;
            lemma_sq_le(d as int, radius as int);
        }
        let v = Vector2 { x, y };
        proof {
            assert(disk_sample(v@, radius as int, u as int, t as int));
        }
        v
    }

    /// In-place variant of [`Vector2::clamp_mag`].
    pub fn clamp_mag_assign(&mut self, limit: i64)
        ensures
            final(self)@ == s_clamp_mag(old(self)@, limit as int),
    {
        let v = *self;
        *self = v.clamp_mag(limit);
    }
}

} // verus!

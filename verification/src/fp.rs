//! Fixed-point scalars.
//!
//! A scalar stores its real value times [`SCALE`]; every rounding step the
//! library takes is the truncated quotient [`tdiv`], and every produced
//! value is clamped into `[-MAXV, MAXV]` by [`clampi`], so all operations
//! are total over `i64`.
use vstd::prelude::*;

verus! {

/// One real unit in the fixed-point encoding.
pub const SCALE: i64 = 1_000_000;

/// Produced scalars are clamped to `[-MAXV, MAXV]`, so products of two
/// clamped scalars stay far inside the `i128` range.
pub const MAXV: i64 = 1_000_000_000_000_000;

/// Clamp an unbounded integer into the representable range.
pub open spec fn clampi(v: int) -> int {
    if v > MAXV as int {
        MAXV as int
    } else if v < -(MAXV as int) {
        -(MAXV as int)
    } else {
        v
    }
}

/// Division truncating toward zero (the rounding of `/` on hardware
/// integers), for a positive divisor.
pub open spec fn tdiv(a: int, d: int) -> int
    recommends
        d > 0,
{
    if a >= 0 {
        a / d
    } else {
        -((-a) / d)
    }
}

/// The clamped, truncated quotient `a * b / d`: the one rounding step all
/// fixed-point products and quotients of this library share.
pub open spec fn mdc(a: int, b: int, d: int) -> int
    recommends
        d > 0,
{
    clampi(tdiv(a * b, d))
}

/// A product of two `i64` values stays far inside the `i128` range.
proof fn lemma_i64_prod_in_i128(a: int, b: int)
    by (nonlinear_arith)
    requires
        i64::MIN <= a <= i64::MAX,
        i64::MIN <= b <= i64::MAX,
    ensures
        -0x40000000000000000000000000000000 <= a * b <= 0x40000000000000000000000000000000,
{
}

/// Computes `mdc(a, b, d)` exactly, with the product taken in `i128`.
pub fn mul_div_clamp(a: i64, b: i64, d: i64) -> (r: i64)
    requires
        d > 0,
    ensures
        r == mdc(a as int, b as int, d as int),
        -MAXV <= r <= MAXV,
{
    proof {
        lemma_i64_prod_in_i128(a as int, b as int);
    }
    let p: i128 = (a as i128) * (b as i128);
    let neg: bool = p < 0;
    let m: u128 = if neg {
        (-p) as u128
    } else {
        p as u128
    };
    let q: u128 = m / (d as u128);
    let qc: i64 = if q > (MAXV as u128) {
        MAXV
    } else {
        q as i64
    };
    assert(q == (if p >= 0 { p as int } else { -(p as int) }) / (d as int));
    if neg {
        assert(-qc == mdc(a as int, b as int, d as int));
        -qc
    } else {
        assert(qc == mdc(a as int, b as int, d as int));
        qc
    }
}

/// `r` is the integer square root of `n`, rounded down.
pub open spec fn is_sqrt(n: int, r: int) -> bool {
    0 <= r && r * r <= n && n < (r + 1) * (r + 1)
}

/// The integer square root of `n`, rounded down, as a total spec function.
pub open spec fn sqrt_f(n: int) -> int {
    choose|r: int| is_sqrt(n, r)
}

/// Every nonnegative integer has an integer square root.
pub proof fn lemma_sqrt_exists(n: nat)
    ensures
        is_sqrt(n as int, sqrt_f(n as int)),
    decreases n,
{
    if n == 0 {
        assert(is_sqrt(0, 0));
    } else {
        lemma_sqrt_exists((n - 1) as nat);
        let r = sqrt_f(n - 1);
        if (r + 1) * (r + 1) <= n {
            assert(n - 1 < (r + 1) * (r + 1));
            assert(n < (r + 2) * (r + 2)) by (nonlinear_arith)
                requires
                    (r + 1) * (r + 1) <= n <= (r + 1) * (r + 1),
                    r >= 0,
            ;
            assert(is_sqrt(n as int, r + 1));
        } else {
            assert(is_sqrt(n as int, r));
        }
    }
    assert(exists|r: int| is_sqrt(n as int, r));
}

/// The integer square root is unique.
pub proof fn lemma_sqrt_unique(n: int, r: int)
    requires
        is_sqrt(n, r),
    ensures
        r == sqrt_f(n),
{
    lemma_sqrt_exists(n as nat);
    let s = sqrt_f(n);
    assert(r == s) by (nonlinear_arith)
        requires
            0 <= r,
            0 <= s,
            r * r <= n < (r + 1) * (r + 1),
            s * s <= n < (s + 1) * (s + 1),
    ;
}

/// The integer square root, by binary search over `u128`.
pub fn isqrt(n: u128) -> (r: u64)
    requires
        n <= (u64::MAX as u128) * (u64::MAX as u128),
    ensures
        r == sqrt_f(n as int),
        is_sqrt(n as int, r as int),
{
    let mut lo: u128 = 0;
    let mut hi: u128 = 0x10000000000000000;
    assert((hi as int) * (hi as int) > n as int) by (nonlinear_arith)
        requires
            hi == 0x10000000000000000,
            n <= (u64::MAX as u128) * (u64::MAX as u128),
    ;
    while lo + 1 < hi
        invariant
            0 <= lo < hi <= 0x10000000000000000,
            (lo as int) * (lo as int) <= n as int,
            (hi as int) * (hi as int) > n as int,
            n <= (u64::MAX as u128) * (u64::MAX as u128),
        decreases hi - lo,
    {
        let mid: u128 = lo + (hi - lo) / 2;
        assert(lo < mid < hi);
        assert((mid as int) * (mid as int) <= (u64::MAX as int) * (u64::MAX as int))
            by (nonlinear_arith)
            requires
                0 <= mid <= u64::MAX as int,
        ;
        if mid * mid <= n {
            lo = mid;
        } else {
            hi = mid;
        }
    }
    assert(is_sqrt(n as int, lo as int));
    proof {
        lemma_sqrt_unique(n as int, lo as int);
    }
    lo as u64
}

} // verus!

//! Integer geometry shared by generation and interaction.
use vstd::prelude::*;

verus! {

/// Squared Euclidean distance between two points.
pub open spec fn dist_sq(ax: int, ay: int, bx: int, by: int) -> int {
    (ax - bx) * (ax - bx) + (ay - by) * (ay - by)
}

/// `r` is the square root of `n` rounded down.
pub open spec fn is_isqrt(n: int, r: int) -> bool {
    0 <= r && r * r <= n && n < (r + 1) * (r + 1)
}

/// The square root of `n` rounded down, for `n >= 0`: the root of `n - 1`,
/// raised by one when its successor squared does not exceed `n`.
pub open spec fn floor_sqrt(n: int) -> int
    decreases n,
{
    if n <= 0 {
        0
    } else {
        let r = floor_sqrt(n - 1);
        if (r + 1) * (r + 1) <= n {
            r + 1
        } else {
            r
        }
    }
}

/// Quotient of `a` by `b`, rounded toward zero as Rust's integer division rounds.
pub open spec fn div_trunc(a: int, b: int) -> int {
    if a >= 0 {
        a / b
    } else {
        -((-a) / b)
    }
}

/// `floor_sqrt` is the square root rounded down.
pub proof fn lemma_floor_sqrt(n: int)
    requires
        0 <= n,
    ensures
        is_isqrt(n, floor_sqrt(n)),
    decreases n,
{
    if n > 0 {
        lemma_floor_sqrt(n - 1);
        let r = floor_sqrt(n - 1);
        assert((r + 1) * (r + 1) < (r + 2) * (r + 2)) by (nonlinear_arith)
            requires
                0 <= r,
        ;
    }
}

/// A number has one square root rounded down.
pub proof fn lemma_isqrt_unique(n: int, a: int, b: int)
    requires
        is_isqrt(n, a),
        is_isqrt(n, b),
    ensures
        a == b,
{
    lemma_square_monotonic(a + 1, b);
    lemma_square_monotonic(b + 1, a);
}

/// Square root of `n`, rounded down.
pub fn isqrt(n: u64) -> (r: u64)
    ensures
        is_isqrt(n as int, r as int),
        r == floor_sqrt(n as int),
{
    let mut lo: u64 = 0;
    let mut hi: u64 = 0x1_0000_0000;
    while hi - lo > 1
        invariant
            lo < hi <= 0x1_0000_0000,
            lo * lo <= n,
            n < hi * hi,
        decreases hi - lo,
    {
        let mid: u64 = lo + (hi - lo) / 2;
        assert(mid * mid < 0x1_0000_0000_0000_0000) by (nonlinear_arith)
            requires
                mid < 0x1_0000_0000,
        ;
        if mid * mid <= n {
            lo = mid;
        } else {
            hi = mid;
        }
    }
    proof {
        lemma_floor_sqrt(n as int);
        lemma_isqrt_unique(n as int, lo as int, floor_sqrt(n as int));
    }
    lo
}

/// `a / b` rounded toward zero.
pub(crate) fn div_toward_zero(a: i64, b: i64) -> (r: i64)
    requires
        b > 0,
        a > i64::MIN,
    ensures
        r == div_trunc(a as int, b as int),
{
    if a >= 0 {
        a / b
    } else {
        -((-a) / b)
    }
}

/// Two non-negative numbers compare as their squares do.
pub proof fn lemma_square_monotonic(a: int, b: int)
    requires
        0 <= a,
        0 <= b,
    ensures
        a < b <==> a * a < b * b,
        a <= b <==> a * a <= b * b,
{
    if a < b {
        assert(a * a < b * b) by (nonlinear_arith)
            requires
                0 <= a < b,
        ;
    } else {
        assert(b * b <= a * a) by (nonlinear_arith)
            requires
                0 <= b <= a,
        ;
    }
    if a <= b {
        assert(a * a <= b * b) by (nonlinear_arith)
            requires
                0 <= a <= b,
        ;
    } else {
        assert(b * b < a * a) by (nonlinear_arith)
            requires
                0 <= b < a,
        ;
    }
}

/// The rounded-down root of `n` is at least `k` exactly when `n` is at least `k * k`.
pub proof fn lemma_isqrt_at_least(n: int, r: int, k: int)
    requires
        is_isqrt(n, r),
        0 <= k,
    ensures
        r >= k <==> n >= k * k,
{
    lemma_square_monotonic(r, k);
    lemma_square_monotonic(r + 1, k);
}

/// Scaling an offset no longer than `d` by `k / d` gives an offset no longer than `k`.
pub proof fn lemma_scaled_offset_bound(a: int, k: int, d: int)
    requires
        0 < d,
        0 <= k,
        -d <= a <= d,
    ensures
        -k <= div_trunc(a * k, d) <= k,
{
    if a >= 0 {
        assert(0 <= (a * k) / d <= k) by (nonlinear_arith)
            requires
                0 < d,
                0 <= k,
                0 <= a <= d,
        ;
    } else if k == 0 {
        assert(a * k == 0);
    } else {
        assert(a * k < 0 && 0 <= ((-(a * k)) / d) <= k) by (nonlinear_arith)
            requires
                0 < d,
                0 < k,
                -d <= a < 0,
        ;
    }
}

} // verus!

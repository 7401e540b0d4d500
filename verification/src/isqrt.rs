//! Integer square roots, rounded down: the spec-level definition and an
//! executable binary search against it.

use vstd::prelude::*;

verus! {

/// `r` is the square root of `n`, rounded down.
pub open spec fn is_sqrt_floor(n: int, r: int) -> bool {
    0 <= r && r * r <= n && n < (r + 1) * (r + 1)
}

/// The square root of `n`, rounded down; meaningful for `n >= 0`.
pub open spec fn sqrt_floor(n: int) -> int {
    choose|r: int| is_sqrt_floor(n, r)
}

/// For every `n >= 0` some rounded-down square root exists, so `sqrt_floor`
/// denotes a root with the defining property.
pub proof fn lemma_sqrt_floor_exists(n: int)
    requires
        n >= 0,
    ensures
        is_sqrt_floor(n, sqrt_floor(n)),
    decreases n,
{
    if n == 0 {
        assert(is_sqrt_floor(0, 0));
    } else {
        lemma_sqrt_floor_exists(n - 1);
        let r = sqrt_floor(n - 1);
        if n < (r + 1) * (r + 1) {
            assert(is_sqrt_floor(n, r));
        } else {
            assert((r + 1) * (r + 1) < (r + 2) * (r + 2)) by (nonlinear_arith)
                requires
                    r >= 0,
            ;
            assert(is_sqrt_floor(n, r + 1));
        }
    }
}

/// Two values with the defining property are equal, so any witness equals
/// `sqrt_floor(n)`.
pub proof fn lemma_sqrt_floor_unique(n: int, r: int)
    requires
        is_sqrt_floor(n, r),
    ensures
        r == sqrt_floor(n),
{
    assert(n >= 0) by (nonlinear_arith)
        requires
            0 <= r && r * r <= n,
    ;
    lemma_sqrt_floor_exists(n);
    let s = sqrt_floor(n);
    if r < s {
        assert((r + 1) * (r + 1) <= s * s) by (nonlinear_arith)
            requires
                0 <= r && r + 1 <= s,
        ;
    }
    if s < r {
        assert((s + 1) * (s + 1) <= r * r) by (nonlinear_arith)
            requires
                0 <= s && s + 1 <= r,
        ;
    }
}

/// A root never exceeds what it is a root of.
pub proof fn lemma_sqrt_floor_le(n: int, b: int)
    requires
        n >= 0,
        0 <= b,
        n <= b * b,
    ensures
        0 <= sqrt_floor(n) <= b,
{
    lemma_sqrt_floor_exists(n);
    let r = sqrt_floor(n);
    if r > b {
        assert(b * b < r * r) by (nonlinear_arith)
            requires
                0 <= b && b + 1 <= r,
        ;
    }
}

/// Rounded-down square roots are monotone.
pub proof fn lemma_sqrt_floor_mono(m: int, n: int)
    requires
        0 <= m <= n,
    ensures
        sqrt_floor(m) <= sqrt_floor(n),
{
    lemma_sqrt_floor_exists(m);
    lemma_sqrt_floor_exists(n);
    let rm = sqrt_floor(m);
    let rn = sqrt_floor(n);
    if rn < rm {
        assert((rn + 1) * (rn + 1) <= rm * rm) by (nonlinear_arith)
            requires
                0 <= rn && rn + 1 <= rm,
        ;
    }
}

/// The rounded-down square root of an exact square.
pub proof fn lemma_sqrt_floor_square(a: int)
    requires
        a >= 0,
    ensures
        sqrt_floor(a * a) == a,
{
    assert(a * a < (a + 1) * (a + 1)) by (nonlinear_arith)
        requires
            a >= 0,
    ;
    assert(is_sqrt_floor(a * a, a));
    lemma_sqrt_floor_unique(a * a, a);
}

/// Rounded-down square root of `n`, by binary search over `[0, 3 * 10^9]`.
pub fn isqrt64(n: u64) -> (r: u64)
    requires
        n < 9_000_000_000_000_000_000,
    ensures
        r == sqrt_floor(n as int),
        is_sqrt_floor(n as int, r as int),
{
    let mut lo: u64 = 0;
    let mut hi: u64 = 3_000_000_000;
    while lo + 1 < hi
        invariant
            lo < hi <= 3_000_000_000,
            lo * lo <= n,
            n < hi * hi,
        decreases hi - lo,
    {
        let mid = lo + (hi - lo) / 2;
        assert(lo < mid < hi);
        assert(mid * mid < 18_446_744_073_709_551_615) by (nonlinear_arith)
            requires
                mid <= 3_000_000_000,
        ;
        if mid * mid <= n {
            lo = mid;
        } else {
            hi = mid;
        }
    }
    proof {
        lemma_sqrt_floor_unique(n as int, lo as int);
    }
    lo
}

} // verus!

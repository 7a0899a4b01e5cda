//! Integer square root: the floor of the real square root, as a spec
//! function together with a verified executable implementation.

use vstd::prelude::*;

verus! {

/// `r` is the floor of the square root of `n`.
pub open spec fn is_sqrt_floor(n: int, r: int) -> bool {
    0 <= r && r * r <= n && n < (r + 1) * (r + 1)
}

/// The floor of the square root of `n`, for `n >= 0`.
pub open spec fn sqrt_floor(n: int) -> int {
    choose|r: int| is_sqrt_floor(n, r)
}

/// No two integers are both the floor of the square root of `n`.
pub proof fn lemma_sqrt_floor_unique(n: int, r: int)
    requires
        is_sqrt_floor(n, r),
    ensures
        sqrt_floor(n) == r,
{
    let r2 = sqrt_floor(n);
    assert(is_sqrt_floor(n, r2));
    assert forall|a: int, b: int| is_sqrt_floor(n, a) && is_sqrt_floor(n, b) implies a == b by {
        assert(a < b + 1 && b < a + 1) by (nonlinear_arith)
            requires
                0 <= a,
                0 <= b,
                a * a <= n,
                n < (a + 1) * (a + 1),
                b * b <= n,
                n < (b + 1) * (b + 1),
        ;
    }
}

/// Every non-negative integer has a square-root floor.
pub proof fn lemma_sqrt_floor_exists(n: nat)
    ensures
        is_sqrt_floor(n as int, sqrt_floor(n as int)),
    decreases n,
{
    if n == 0 {
        assert(is_sqrt_floor(0, 0));
        lemma_sqrt_floor_unique(n as int, 0);
    } else {
        lemma_sqrt_floor_exists((n - 1) as nat);
        let r = sqrt_floor(n - 1);
        if (r + 1) * (r + 1) <= n {
            assert(n - 1 < (r + 1) * (r + 1));
            assert(n < (r + 2) * (r + 2)) by (nonlinear_arith)
                requires
                    0 <= r,
                    n <= (r + 1) * (r + 1),
            ;
            assert(is_sqrt_floor(n as int, r + 1));
            lemma_sqrt_floor_unique(n as int, r + 1);
        } else {
            assert(is_sqrt_floor(n as int, r));
            lemma_sqrt_floor_unique(n as int, r);
        }
    }
}

/// The square-root floor does not decrease when its argument grows.
pub proof fn lemma_sqrt_floor_monotonic(a: int, b: int)
    requires
        0 <= a <= b,
    ensures
        sqrt_floor(a) <= sqrt_floor(b),
{
    lemma_sqrt_floor_exists(a as nat);
    lemma_sqrt_floor_exists(b as nat);
    let ra = sqrt_floor(a);
    let rb = sqrt_floor(b);
    if ra > rb {
        assert((rb + 1) * (rb + 1) <= ra * ra) by (nonlinear_arith)
            requires
                0 <= rb,
                rb + 1 <= ra,
        ;
        assert(false);
    }
}

/// Floor of the square root, by binary search.
pub fn isqrt(n: u64) -> (r: u64)
    ensures
        is_sqrt_floor(n as int, r as int),
        r as int == sqrt_floor(n as int),
        n >= 1 ==> r >= 1,
{
    let mut lo: u64 = 0;
    let mut hi: u64 = 4_294_967_296;
    assert((n as int) < 4_294_967_296int * 4_294_967_296int) by (nonlinear_arith)
        requires
            n <= u64::MAX,
    ;
    while lo + 1 < hi
        invariant
            lo < hi <= 4_294_967_296,
            (lo as int) * (lo as int) <= n as int,
            (n as int) < (hi as int) * (hi as int),
        decreases hi - lo,
    {
        let mid: u64 = lo + (hi - lo) / 2;
        assert((mid as int) * (mid as int) <= 4_294_967_295int * 4_294_967_295int)
            by (nonlinear_arith)
            requires
                0 <= mid as int <= 4_294_967_295int,
        ;
        if mid * mid <= n {
            lo = mid;
        } else {
            hi = mid;
        }
    }
    proof {
        assert(is_sqrt_floor(n as int, lo as int));
        lemma_sqrt_floor_unique(n as int, lo as int);
        if n >= 1 && lo == 0 {
            assert((n as int) < 1) by (nonlinear_arith)
                requires
                    (n as int) < (0int + 1) * (0int + 1),
            ;
            assert(false);
        }
    }
    lo
}

} // verus!

use vstd::prelude::*;

verus! {

/// `r` is the integer square root of `x`: the largest number whose square does not exceed `x`.
pub open spec fn is_isqrt(x: int, r: int) -> bool {
    0 <= r && r * r <= x && x < (r + 1) * (r + 1)
}

/// The integer square root of `x`, for `x >= 0`.
pub open spec fn root(x: int) -> int {
    choose|r: int| is_isqrt(x, r)
}

/// At most one number is the integer square root of `x`.
pub proof fn lemma_isqrt_unique(x: int, r1: int, r2: int)
    requires
        is_isqrt(x, r1),
        is_isqrt(x, r2),
    ensures
        r1 == r2,
{
    if r1 < r2 {
        assert((r1 + 1) * (r1 + 1) <= r2 * r2) by (nonlinear_arith)
            requires
                0 <= r1 + 1 <= r2,
        ;
    } else if r2 < r1 {
        assert((r2 + 1) * (r2 + 1) <= r1 * r1) by (nonlinear_arith)
            requires
                0 <= r2 + 1 <= r1,
        ;
    }
}

pub proof fn lemma_root(x: int, r: int)
    requires
        is_isqrt(x, r),
    ensures
        root(x) == r,
{
    lemma_isqrt_unique(x, root(x), r);
}

/// The root of a perfect square.
pub proof fn lemma_root_of_square(v: int)
    requires
        v >= 0,
    ensures
        root(v * v) == v,
{
    assert(v * v < (v + 1) * (v + 1)) by (nonlinear_arith)
        requires
            v >= 0,
    ;
    lemma_root(v * v, v);
}

/// Integer square root, by bisection.
pub fn isqrt_u128(x: u128) -> (r: u128)
    ensures
        is_isqrt(x as int, r as int),
        r == root(x as int),
{
    // the answer lies in [lo, hi)
    let mut lo: u128 = 0;
    let mut hi: u128 = 0x1_0000_0000_0000_0000;
    assert((hi as int) * (hi as int) > x as int) by (nonlinear_arith)
        requires hi as int == 0x1_0000_0000_0000_0000int, x < 0x1_0000_0000_0000_0000_0000_0000_0000_0000int;
    while hi - lo > 1
        invariant
            lo < hi <= 0x1_0000_0000_0000_0000,
            (lo as int) * (lo as int) <= x as int,
            (hi as int) * (hi as int) > x as int,
        decreases hi - lo,
    {
        let mid: u128 = lo + (hi - lo) / 2;
        assert(mid < 0x1_0000_0000_0000_0000);
        assert((mid as int) * (mid as int) < 0x1_0000_0000_0000_0000_0000_0000_0000_0000int) by (nonlinear_arith)
            requires mid < 0x1_0000_0000_0000_0000int, mid >= 0;
        if mid * mid <= x {
            lo = mid;
        } else {
            hi = mid;
        }
    }
    assert(hi == lo + 1);
    proof {
        lemma_root(x as int, lo as int);
    }
    lo
}

} // verus!

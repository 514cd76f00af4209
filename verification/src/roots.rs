//! Integer square roots.

use vstd::prelude::*;

verus! {

/// `r` is the square root of `x`, rounded down.
pub open spec fn is_floor_sqrt(x: nat, r: nat) -> bool {
    r * r <= x < (r + 1) * (r + 1)
}

/// The square root of `x`, rounded down.
pub open spec fn floor_sqrt(x: nat) -> nat {
    choose|r: nat| is_floor_sqrt(x, r)
}

/// Every number has a rounded-down square root.
pub proof fn lemma_floor_sqrt_exists(x: nat)
    ensures
        is_floor_sqrt(x, floor_sqrt(x)),
    decreases x,
{
    if x == 0 {
        assert(0nat * 0nat == 0 && (0nat + 1) * (0nat + 1) == 1) by (nonlinear_arith);
        assert(is_floor_sqrt(0, 0));
    } else {
        lemma_floor_sqrt_exists((x - 1) as nat);
        let r = floor_sqrt((x - 1) as nat);
        if x < (r + 1) * (r + 1) {
            assert(is_floor_sqrt(x, r));
        } else {
            assert((r + 1) * (r + 1) <= x < (r + 2) * (r + 2)) by (nonlinear_arith)
                requires
                    x - 1 < (r + 1) * (r + 1),
                    x >= (r + 1) * (r + 1),
            ;
            assert(is_floor_sqrt(x, r + 1));
        }
    }
}

/// A number that squares to at most `x`, and whose successor squares to more,
/// is the rounded-down square root of `x`.
pub proof fn lemma_floor_sqrt_unique(x: nat, r: nat)
    requires
        is_floor_sqrt(x, r),
    ensures
        floor_sqrt(x) == r,
{
    let s = floor_sqrt(x);
    assert(is_floor_sqrt(x, s));
    if s < r {
        assert((s + 1) * (s + 1) <= r * r) by (nonlinear_arith)
            requires
                s + 1 <= r,
        ;
    } else if s > r {
        assert((r + 1) * (r + 1) <= s * s) by (nonlinear_arith)
            requires
                r + 1 <= s,
        ;
    }
}

/// The root of a product is at most the mean of its factors: twice the root
/// of `p * q * s * s` is at most `(p + q) * s`.
pub proof fn lemma_root_below_mean(p: nat, q: nat, s: nat)
    ensures
        2 * floor_sqrt(p * q * s * s) <= (p + q) * s,
{
    let x = p * q * s * s;
    lemma_floor_sqrt_exists(x);
    let r = floor_sqrt(x);
    let m = (p + q) * s;
    if 2 * r > m {
        assert(4 * x <= m * m) by (nonlinear_arith)
            requires
                x == p * q * s * s,
                m == (p + q) * s,
        {
            assert((p + q) * (p + q) - 4 * (p * q) == (p - q) * (p - q));
            assert((p - q) * (p - q) >= 0);
        }
        assert(4 * (r * r) > m * m) by (nonlinear_arith)
            requires
                2 * r > m,
                m >= 0,
        ;
    }
}

/// The root of a square is its base.
pub proof fn lemma_root_of_square(p: nat, s: nat)
    ensures
        floor_sqrt(p * p * s * s) == p * s,
{
    let r = p * s;
    assert(r * r == p * p * s * s) by (nonlinear_arith)
        requires
            r == p * s,
    ;
    assert(r * r < (r + 1) * (r + 1)) by (nonlinear_arith);
    lemma_floor_sqrt_unique(p * p * s * s, r);
}

/// Computes the square root of `x`, rounded down.
pub fn isqrt(x: u128) -> (r: u128)
    ensures
        r == floor_sqrt(x as nat),
{
    let mut lo: u128 = 0;
    let mut hi: u128 = 0x1_0000_0000_0000_0000;
    assert(lo * lo <= x < hi * hi) by (nonlinear_arith)
        requires
            lo == 0,
            hi == 0x1_0000_0000_0000_0000,
            x <= u128::MAX,
    ;
    while hi - lo > 1
        invariant
            lo < hi <= 0x1_0000_0000_0000_0000,
            lo * lo <= x < hi * hi,
        decreases hi - lo,
    {
        let mid: u128 = lo + (hi - lo) / 2;
        assert(mid * mid <= 0xffff_ffff_ffff_ffff * 0xffff_ffff_ffff_ffff) by (nonlinear_arith)
            requires
                0 <= mid <= 0xffff_ffff_ffff_ffff,
        ;
        if mid * mid <= x {
            lo = mid;
        } else {
            hi = mid;
        }
    }
    proof {
        assert(hi == lo + 1);
        lemma_floor_sqrt_unique(x as nat, lo as nat);
    }
    lo
}

} // verus!

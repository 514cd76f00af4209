//! Sums over the pixels of one or two frames, and what holds of them.

use vstd::prelude::*;

verus! {

/// The distance between two intensities.
pub open spec fn abs_diff(x: int, y: int) -> int {
    if x >= y {
        x - y
    } else {
        y - x
    }
}

/// The sum of the first `k` intensities.
pub open spec fn sum_of(a: Seq<u8>, k: int) -> int
    decreases k,
{
    if k <= 0 {
        0
    } else {
        sum_of(a, k - 1) + a[k - 1]
    }
}

/// The sum of the squares of the first `k` intensities.
pub open spec fn sum_squares(a: Seq<u8>, k: int) -> int
    decreases k,
{
    if k <= 0 {
        0
    } else {
        sum_squares(a, k - 1) + a[k - 1] * a[k - 1]
    }
}

/// The sum of the products of the first `k` pairs of intensities.
pub open spec fn sum_products(a: Seq<u8>, b: Seq<u8>, k: int) -> int
    decreases k,
{
    if k <= 0 {
        0
    } else {
        sum_products(a, b, k - 1) + a[k - 1] * b[k - 1]
    }
}

/// The sum of the distances of the first `k` pairs of intensities.
pub open spec fn sum_abs_diff(a: Seq<u8>, b: Seq<u8>, k: int) -> int
    decreases k,
{
    if k <= 0 {
        0
    } else {
        sum_abs_diff(a, b, k - 1) + abs_diff(a[k - 1] as int, b[k - 1] as int)
    }
}

/// How many of the first `k` intensities equal `v`.
pub open spec fn count_of(a: Seq<u8>, v: int, k: int) -> int
    decreases k,
{
    if k <= 0 {
        0
    } else {
        count_of(a, v, k - 1) + if a[k - 1] == v {
            1int
        } else {
            0int
        }
    }
}

/// The intensity histogram of a frame: for each of the 256 intensities, how
/// many pixels have it.
pub open spec fn histogram_of(a: Seq<u8>) -> Seq<int> {
    Seq::new(256, |v: int| count_of(a, v, a.len() as int))
}

/// The sum of the first `m` bins.
pub open spec fn bins_total(h: Seq<int>, m: int) -> int
    decreases m,
{
    if m <= 0 {
        0
    } else {
        bins_total(h, m - 1) + h[m - 1]
    }
}

pub proof fn lemma_sum_bounds(a: Seq<u8>, b: Seq<u8>, k: int)
    requires
        0 <= k <= a.len(),
        k <= b.len(),
    ensures
        0 <= sum_of(a, k) <= 255 * k,
        0 <= sum_squares(a, k) <= 65025 * k,
        0 <= sum_products(a, b, k) <= 65025 * k,
        0 <= sum_abs_diff(a, b, k) <= 255 * k,
    decreases k,
{
    if k > 0 {
        lemma_sum_bounds(a, b, k - 1);
        let x = a[k - 1] as int;
        let y = b[k - 1] as int;
        assert(0 <= x * x <= 65025 && 0 <= x * y <= 65025) by (nonlinear_arith)
            requires
                0 <= x <= 255,
                0 <= y <= 255,
        ;
    }
}

/// The sums of distances and of products do not depend on which frame comes
/// first, and a frame lies at distance zero from itself.
pub proof fn lemma_sums_symmetric(a: Seq<u8>, b: Seq<u8>, k: int)
    ensures
        sum_abs_diff(a, b, k) == sum_abs_diff(b, a, k),
        sum_products(a, b, k) == sum_products(b, a, k),
        sum_abs_diff(a, a, k) == 0,
        sum_products(a, a, k) == sum_squares(a, k),
    decreases k,
{
    if k > 0 {
        lemma_sums_symmetric(a, b, k - 1);
        let x = a[k - 1] as int;
        let y = b[k - 1] as int;
        assert(x * y == y * x) by (nonlinear_arith);
    }
}

pub proof fn lemma_count_bounds(a: Seq<u8>, v: int, k: int)
    requires
        0 <= k,
    ensures
        0 <= count_of(a, v, k) <= k,
    decreases k,
{
    if k > 0 {
        lemma_count_bounds(a, v, k - 1);
    }
}

/// Over the first `k` pixels, the bins below `m` hold those pixels whose
/// intensity lies below `m`; all 256 bins together hold every pixel.
proof fn lemma_bins_step(a: Seq<u8>, k: int, m: int)
    requires
        0 < k <= a.len(),
        0 <= m <= 256,
    ensures
        bins_total(Seq::new(256, |v: int| count_of(a, v, k)), m) == bins_total(
            Seq::new(256, |v: int| count_of(a, v, k - 1)),
            m,
        ) + if a[k - 1] < m {
            1int
        } else {
            0int
        },
    decreases m,
{
    if m > 0 {
        lemma_bins_step(a, k, m - 1);
    }
}

proof fn lemma_bins_zero(a: Seq<u8>, m: int)
    requires
        0 <= m <= 256,
    ensures
        bins_total(Seq::new(256, |v: int| count_of(a, v, 0)), m) == 0,
    decreases m,
{
    if m > 0 {
        lemma_bins_zero(a, m - 1);
    }
}

proof fn lemma_bins_prefix(a: Seq<u8>, k: int)
    requires
        0 <= k <= a.len(),
    ensures
        bins_total(Seq::new(256, |v: int| count_of(a, v, k)), 256) == k,
    decreases k,
{
    if k > 0 {
        lemma_bins_prefix(a, k - 1);
        lemma_bins_step(a, k, 256);
    } else {
        lemma_bins_zero(a, 256);
    }
}

/// The bins of a histogram add up to the number of pixels.
pub proof fn lemma_histogram_total(a: Seq<u8>)
    ensures
        histogram_of(a).len() == 256,
        bins_total(histogram_of(a), 256) == a.len(),
        forall|v: int| 0 <= v < 256 ==> 0 <= #[trigger] histogram_of(a)[v] <= a.len(),
{
    lemma_bins_prefix(a, a.len() as int);
    assert forall|v: int| 0 <= v < 256 implies 0 <= #[trigger] histogram_of(a)[v] <= a.len() by {
        lemma_count_bounds(a, v, a.len() as int);
    }
}

/// The sum of the first `k` squared distances of `a[i] + sign * b[i]` from
/// `t`.
pub open spec fn spread(a: Seq<u8>, b: Seq<u8>, sign: int, t: int, k: int) -> int
    decreases k,
{
    if k <= 0 {
        0
    } else {
        spread(a, b, sign, t, k - 1) + (a[k - 1] + sign * b[k - 1] - t) * (a[k - 1] + sign * b[k
            - 1] - t)
    }
}

/// The sum of the squares of `a[i] + sign * b[i]` over the first `k` pairs.
pub open spec fn mixed_squares(a: Seq<u8>, b: Seq<u8>, sign: int, k: int) -> int {
    sum_squares(a, k) + sum_squares(b, k) + 2 * sign * sum_products(a, b, k)
}

/// The sum of `a[i] + sign * b[i]` over the first `k` pairs.
pub open spec fn mixed_sum(a: Seq<u8>, b: Seq<u8>, sign: int, k: int) -> int {
    sum_of(a, k) + sign * sum_of(b, k)
}

proof fn lemma_spread(a: Seq<u8>, b: Seq<u8>, sign: int, t: int, k: int)
    requires
        sign == 1 || sign == -1,
        0 <= k,
    ensures
        spread(a, b, sign, t, k) >= 0,
        spread(a, b, sign, t, k) == mixed_squares(a, b, sign, k) - 2 * t * mixed_sum(
            a,
            b,
            sign,
            k,
        ) + k * t * t,
    decreases k,
{
    if k > 0 {
        lemma_spread(a, b, sign, t, k - 1);
        let x = a[k - 1] as int;
        let y = b[k - 1] as int;
        let d = x + sign * y - t;
        let w = mixed_squares(a, b, sign, k - 1);
        let m = mixed_sum(a, b, sign, k - 1);
        let p = sum_products(a, b, k - 1);
        assert(d * d >= 0) by (nonlinear_arith);
        assert(mixed_squares(a, b, sign, k) == w + (x + sign * y) * (x + sign * y))
            by (nonlinear_arith)
            requires
                sign == 1 || sign == -1,
                mixed_squares(a, b, sign, k) == sum_squares(a, k - 1) + x * x + sum_squares(
                    b,
                    k - 1,
                ) + y * y + 2 * sign * (p + x * y),
                w == sum_squares(a, k - 1) + sum_squares(b, k - 1) + 2 * sign * p,
        ;
        assert(mixed_sum(a, b, sign, k) == m + (x + sign * y)) by (nonlinear_arith)
            requires
                mixed_sum(a, b, sign, k) == sum_of(a, k - 1) + x + sign * (sum_of(b, k - 1) + y),
                m == sum_of(a, k - 1) + sign * sum_of(b, k - 1),
        ;
        let z = x + sign * y;
        let r = spread(a, b, sign, t, k - 1);
        assert(r + d * d == (w + z * z) - 2 * t * (m + z) + k * t * t) by (nonlinear_arith)
            requires
                d == z - t,
                r == w - 2 * t * m + (k - 1) * t * t,
        ;
    } else {
        let p = sum_products(a, b, 0);
        assert(0 == (0 + 0 + 2 * sign * p) - 2 * t * (0 + sign * 0) + 0 * t * t)
            by (nonlinear_arith)
            requires
                p == 0,
        ;
    }
}

/// Cauchy's inequality for the sums of a frame, of two frames added and of
/// two frames subtracted: `k` times the sum of squares is at least the
/// square of the sum.
pub proof fn lemma_cauchy(a: Seq<u8>, b: Seq<u8>, sign: int, k: int)
    requires
        sign == 1 || sign == -1,
        0 <= k,
    ensures
        k * mixed_squares(a, b, sign, k) >= mixed_sum(a, b, sign, k) * mixed_sum(a, b, sign, k),
    decreases k,
{
    if k > 0 {
        lemma_cauchy(a, b, sign, k - 1);
        let x = a[k - 1] as int;
        let y = b[k - 1] as int;
        let z = x + sign * y;
        lemma_spread(a, b, sign, z, k - 1);
        let w = mixed_squares(a, b, sign, k - 1);
        let m = mixed_sum(a, b, sign, k - 1);
        let p = sum_products(a, b, k - 1);
        assert(mixed_squares(a, b, sign, k) == w + z * z) by (nonlinear_arith)
            requires
                sign == 1 || sign == -1,
                z == x + sign * y,
                mixed_squares(a, b, sign, k) == sum_squares(a, k - 1) + x * x + sum_squares(
                    b,
                    k - 1,
                ) + y * y + 2 * sign * (p + x * y),
                w == sum_squares(a, k - 1) + sum_squares(b, k - 1) + 2 * sign * p,
        ;
        assert(mixed_sum(a, b, sign, k) == m + z) by (nonlinear_arith)
            requires
                z == x + sign * y,
                mixed_sum(a, b, sign, k) == sum_of(a, k - 1) + x + sign * (sum_of(b, k - 1) + y),
                m == sum_of(a, k - 1) + sign * sum_of(b, k - 1),
        ;
        assert(k * (w + z * z) >= (m + z) * (m + z)) by (nonlinear_arith)
            requires
                (k - 1) * w >= m * m,
                w - 2 * z * m + (k - 1) * z * z >= 0,
        ;
    } else {
        assert(0 * mixed_squares(a, b, sign, 0) >= mixed_sum(a, b, sign, 0) * mixed_sum(
            a,
            b,
            sign,
            0,
        )) by (nonlinear_arith)
            requires
                mixed_sum(a, b, sign, 0) == 0,
        ;
    }
}

/// The variance of a frame is not negative: `k` times its sum of squares is
/// at least the square of its sum.
pub proof fn lemma_variance(a: Seq<u8>, k: int)
    requires
        0 <= k,
    ensures
        k * sum_squares(a, k) >= sum_of(a, k) * sum_of(a, k),
{
    lemma_cauchy(a, a, 1, k);
    lemma_sums_symmetric(a, a, k);
    let q = sum_squares(a, k);
    let s = sum_of(a, k);
    assert(k * q >= s * s) by (nonlinear_arith)
        requires
            k * (q + q + 2 * 1 * q) >= (s + 1 * s) * (s + 1 * s),
    ;
}

} // verus!

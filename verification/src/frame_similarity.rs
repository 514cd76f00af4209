//! Similarity of two grayscale frames of equal size, as a fixed-point score.
//!
//! A score counts millionths: 0 stands for no likeness, `SCALE` for
//! identical frames. Every algorithm works on exact integer sums over the
//! pixels and rounds down where it divides.

use crate::pixel_sums::{
    bins_total, count_of, histogram_of, lemma_cauchy, lemma_count_bounds, lemma_histogram_total,
    lemma_sum_bounds, lemma_sums_symmetric, lemma_variance, sum_abs_diff, sum_of, sum_products,
    sum_squares,
};
use crate::roots::{floor_sqrt, isqrt, lemma_root_below_mean, lemma_root_of_square};
use vstd::prelude::*;

verus! {

/// The score of identical frames: one, in millionths.
pub const SCALE: u32 = 1_000_000;

/// How two frames are compared.
#[derive(Clone, Copy, Debug, PartialEq, Eq, Structural)]
pub enum SimilarityAlgorithm {
    Histogram,
    SSIM,
    FrameDiff,
}

/// Why no score was computed.
#[derive(Clone, Copy, Debug, PartialEq, Eq, Structural)]
pub enum SimilarityError {
    /// The two frames differ in width or height.
    DimensionMismatch { width: u32, height: u32, other_width: u32, other_height: u32 },
    /// The name stands for no algorithm.
    UnknownAlgorithm,
}

/// The algorithm that a name stands for, if any.
pub open spec fn algorithm_named(name: Seq<char>) -> Option<SimilarityAlgorithm> {
    if name == "histogram"@ {
        Some(SimilarityAlgorithm::Histogram)
    } else if name == "ssim"@ {
        Some(SimilarityAlgorithm::SSIM)
    } else if name == "frame_diff"@ {
        Some(SimilarityAlgorithm::FrameDiff)
    } else {
        None
    }
}

fn same_text(a: &str, b: &str) -> (same: bool)
    ensures
        same == (a@ == b@),
{
    let n: usize = a.unicode_len();
    if n != b.unicode_len() {
        return false;
    }
    let mut i: usize = 0;
    while i < n
        invariant
            i <= n,
            n == a@.len(),
            n == b@.len(),
            forall|k: int| 0 <= k < i ==> a@[k] == b@[k],
        decreases n - i,
    {
        if a.get_char(i) != b.get_char(i) {
            return false;
        }
        i += 1;
    }
    assert(a@ =~= b@);
    true
}

impl SimilarityAlgorithm {
    /// Reads the name of an algorithm: `histogram`, `ssim` or `frame_diff`.
    pub fn from_str(s: &str) -> (result: Result<Self, SimilarityError>)
        ensures
            match result {
                Ok(algorithm) => algorithm_named(s@) == Some(algorithm),
                Err(e) => algorithm_named(s@).is_none() && e == SimilarityError::UnknownAlgorithm,
            },
    {
        if same_text(s, "histogram") {
            Ok(SimilarityAlgorithm::Histogram)
        } else if same_text(s, "ssim") {
            Ok(SimilarityAlgorithm::SSIM)
        } else if same_text(s, "frame_diff") {
            Ok(SimilarityAlgorithm::FrameDiff)
        } else {
            Err(SimilarityError::UnknownAlgorithm)
        }
    }
}

/// The three names stand for three different algorithms.
pub proof fn lemma_algorithm_names()
    ensures
        algorithm_named("histogram"@) == Some(SimilarityAlgorithm::Histogram),
        algorithm_named("ssim"@) == Some(SimilarityAlgorithm::SSIM),
        algorithm_named("frame_diff"@) == Some(SimilarityAlgorithm::FrameDiff),
{
    reveal_strlit("histogram");
    reveal_strlit("ssim");
    reveal_strlit("frame_diff");
    assert("histogram"@.len() == 9);
    assert("ssim"@.len() == 4);
    assert("frame_diff"@.len() == 10);
}

/// A grayscale frame: one intensity for each pixel, row after row.
#[derive(Debug)]
pub struct GrayFrame {
    width: u32,
    height: u32,
    pixels: Vec<u8>,
}

/// The model of a frame.
pub struct FrameView {
    pub width: nat,
    pub height: nat,
    pub pixels: Seq<u8>,
}

impl View for GrayFrame {
    type V = FrameView;

    closed spec fn view(&self) -> FrameView {
        FrameView {
            width: self.width as nat,
            height: self.height as nat,
            pixels: self.pixels@,
        }
    }
}

/// There is one intensity for each pixel, and the count of pixels fits in 32
/// bits.
pub open spec fn frame_wf(frame: FrameView) -> bool {
    frame.pixels.len() == frame.width * frame.height && frame.pixels.len() <= u32::MAX
        && frame.width <= u32::MAX && frame.height <= u32::MAX
}

impl GrayFrame {
    /// Every frame is well formed.
    #[verifier::type_invariant]
    pub closed spec fn wf(&self) -> bool {
        frame_wf(self@)
    }

    /// The model of a frame is well formed.
    pub proof fn lemma_wf(&self)
        requires
            self.wf(),
        ensures
            frame_wf(self@),
    {
    }

    /// Makes a frame of the given size from its intensities. There is none
    /// where their count is not the product of width and height, or does not
    /// fit in 32 bits.
    pub fn new(width: u32, height: u32, pixels: Vec<u8>) -> (frame: Option<Self>)
        ensures
            match frame {
                Some(f) => frame_wf(f@) && f@ == (FrameView {
                    width: width as nat,
                    height: height as nat,
                    pixels: pixels@,
                }),
                None => pixels@.len() != width * height || pixels@.len() > u32::MAX,
            },
    {
        assert(width * height <= 0xffff_ffff * 0xffff_ffff) by (nonlinear_arith)
            requires
                0 <= width <= 0xffff_ffff,
                0 <= height <= 0xffff_ffff,
        ;
        let count: u64 = (width as u64) * (height as u64);
        if pixels.len() as u64 != count || count > 0xffff_ffff {
            return None;
        }
        Some(GrayFrame { width, height, pixels })
    }

    pub fn width(&self) -> (w: u32)
        ensures
            w == self@.width,
    {
        self.width
    }

    pub fn height(&self) -> (h: u32)
        ensures
            h == self@.height,
    {
        self.height
    }

    pub fn pixels(&self) -> (p: &Vec<u8>)
        ensures
            p@ == self@.pixels,
    {
        &self.pixels
    }
}

/// Frame difference: one minus the mean distance between the intensities of
/// the two frames, as a share of the largest distance, 255.
pub open spec fn frame_diff_score(a: Seq<u8>, b: Seq<u8>) -> int {
    let n = a.len() as int;
    if n == 0 {
        SCALE as int
    } else {
        (SCALE * (255 * n - sum_abs_diff(a, b, n))) / (255 * n)
    }
}

/// The sum over the first `m` intensities of the rounded-down root of the
/// product of the two bins, in millionths.
pub open spec fn root_sum(h1: Seq<int>, h2: Seq<int>, m: int) -> int
    decreases m,
{
    if m <= 0 {
        0
    } else {
        root_sum(h1, h2, m - 1) + floor_sqrt((h1[m - 1] * h2[m - 1] * 1_000_000 * 1_000_000) as nat)
    }
}

/// Histogram likeness: the Bhattacharyya coefficient of the two intensity
/// histograms, each normalized by the number of pixels.
pub open spec fn histogram_score(a: Seq<u8>, b: Seq<u8>) -> int {
    let n = a.len() as int;
    if n == 0 {
        SCALE as int
    } else {
        root_sum(histogram_of(a), histogram_of(b), 256) / n
    }
}

/// The numerator of the luminance term, `2 * mean1 * mean2 + C1`, scaled by
/// ten thousand times the squared number of pixels. `C1` is `(0.01 * 255)^2`.
pub open spec fn luminance_num(n: int, s1: int, s2: int) -> int {
    20000 * (s1 * s2) + 65025 * (n * n)
}

/// The denominator of the luminance term, `mean1^2 + mean2^2 + C1`, scaled
/// likewise.
pub open spec fn luminance_den(n: int, s1: int, s2: int) -> int {
    10000 * (s1 * s1 + s2 * s2) + 65025 * (n * n)
}

/// The denominator of the structure term, `var1 + var2 + C2`, scaled
/// likewise. `C2` is `(0.03 * 255)^2`.
pub open spec fn structure_den(n: int, s1: int, s2: int, q1: int, q2: int) -> int {
    10000 * (n * (q1 + q2) - (s1 * s1 + s2 * s2)) + 585225 * (n * n)
}

/// The numerator of the structure term, `2 * cov + C2`, scaled likewise, with
/// the denominator added to it: the structure term plus one.
pub open spec fn structure_num_plus_den(n: int, s1: int, s2: int, q1: int, q2: int, p: int) -> int {
    10000 * (n * (q1 + q2 + 2 * p) - (s1 + s2) * (s1 + s2)) + 1170450 * (n * n)
}

/// Structural similarity from the sums over the two frames: `n` pixels, the
/// sums `s1`, `s2` of the intensities, `q1`, `q2` of their squares and `p` of
/// their products. With `l` the luminance term and `c` the structure term
/// plus one, both in millionths rounded down, the score is the mean of one
/// and the index `l * (c - 1)`, which is `(l * c + 1 - l) / 2`.
pub open spec fn ssim_from_sums(n: int, s1: int, s2: int, q1: int, q2: int, p: int) -> int {
    let l = (SCALE * luminance_num(n, s1, s2)) / luminance_den(n, s1, s2);
    let c = (SCALE * structure_num_plus_den(n, s1, s2, q1, q2, p)) / structure_den(
        n,
        s1,
        s2,
        q1,
        q2,
    );
    (l * c + SCALE * (SCALE - l)) / (2 * SCALE)
}

/// Structural similarity over the whole frame as a single window.
pub open spec fn ssim_score(a: Seq<u8>, b: Seq<u8>) -> int {
    let n = a.len() as int;
    if n == 0 {
        SCALE as int
    } else {
        ssim_from_sums(
            n,
            sum_of(a, n),
            sum_of(b, n),
            sum_squares(a, n),
            sum_squares(b, n),
            sum_products(a, b, n),
        )
    }
}

/// The score of two pixel sequences of one length under an algorithm.
pub open spec fn score_of(a: Seq<u8>, b: Seq<u8>, algorithm: SimilarityAlgorithm) -> int {
    match algorithm {
        SimilarityAlgorithm::Histogram => histogram_score(a, b),
        SimilarityAlgorithm::SSIM => ssim_score(a, b),
        SimilarityAlgorithm::FrameDiff => frame_diff_score(a, b),
    }
}

/// What comparing two frames yields: their score where they have one size,
/// and a mismatch otherwise.
pub open spec fn similarity_of(a: FrameView, b: FrameView, algorithm: SimilarityAlgorithm) -> Result<
    int,
    SimilarityError,
> {
    if a.width != b.width || a.height != b.height {
        Err(
            SimilarityError::DimensionMismatch {
                width: a.width as u32,
                height: a.height as u32,
                other_width: b.width as u32,
                other_height: b.height as u32,
            },
        )
    } else {
        Ok(score_of(a.pixels, b.pixels, algorithm))
    }
}

/// A quotient of a numerator that does not exceed `limit` times its
/// denominator does not exceed `limit`.
proof fn lemma_quotient_bound(num: int, den: int, limit: int)
    requires
        0 <= num <= limit * den,
        den > 0,
    ensures
        0 <= num / den <= limit,
{
    let q = num / den;
    assert(0 <= q <= limit) by (nonlinear_arith)
        requires
            q == num / den,
            0 <= num <= limit * den,
            den > 0,
    ;
}

proof fn lemma_exact_quotient(k: int, den: int)
    requires
        den > 0,
    ensures
        (k * den) / den == k,
{
    assert((k * den) / den == k) by (nonlinear_arith)
        requires
            den > 0,
    ;
}

fn check_dimensions(a: &GrayFrame, b: &GrayFrame) -> (result: Result<(), SimilarityError>)
    ensures
        match result {
            Ok(_) => a@.width == b@.width && a@.height == b@.height,
            Err(e) => (a@.width != b@.width || a@.height != b@.height) && e == (
            SimilarityError::DimensionMismatch {
                width: a@.width as u32,
                height: a@.height as u32,
                other_width: b@.width as u32,
                other_height: b@.height as u32,
            }),
        },
{
    if a.width != b.width || a.height != b.height {
        Err(
            SimilarityError::DimensionMismatch {
                width: a.width,
                height: a.height,
                other_width: b.width,
                other_height: b.height,
            },
        )
    } else {
        Ok(())
    }
}

/// Compares two frames by the mean distance between their intensities.
pub fn frame_diff_similarity(a: &GrayFrame, b: &GrayFrame) -> (result: Result<u32, SimilarityError>)
    ensures
        match result {
            Ok(score) => similarity_of(a@, b@, SimilarityAlgorithm::FrameDiff) == Ok::<
                int,
                SimilarityError,
            >(score as int) && score <= SCALE,
            Err(e) => similarity_of(a@, b@, SimilarityAlgorithm::FrameDiff) == Err::<
                int,
                SimilarityError,
            >(e),
        },
{
    proof {
        use_type_invariant(a);
        use_type_invariant(b);
    }
    match check_dimensions(a, b) {
        Err(e) => {
            return Err(e);
        },
        Ok(_) => {},
    }
    let n: usize = a.pixels.len();
    assert(n == b.pixels@.len()) by (nonlinear_arith)
        requires
            n == a@.width * a@.height,
            b.pixels@.len() == b@.width * b@.height,
            a@.width == b@.width,
            a@.height == b@.height,
    ;
    if n == 0 {
        return Ok(SCALE);
    }
    let mut total: u64 = 0;
    let mut i: usize = 0;
    while i < n
        invariant
            i <= n,
            n == a.pixels@.len(),
            n == b.pixels@.len(),
            n <= u32::MAX,
            total == sum_abs_diff(a.pixels@, b.pixels@, i as int),
            total <= 255 * i,
        decreases n - i,
    {
        let x: u8 = a.pixels[i];
        let y: u8 = b.pixels[i];
        let d: u8 = if x >= y {
            x - y
        } else {
            y - x
        };
        total = total + d as u64;
        i += 1;
    }
    let full: u128 = 255 * (n as u128);
    let kept: u128 = full - total as u128;
    proof {
        assert(SCALE * kept <= SCALE * full) by (nonlinear_arith)
            requires
                kept <= full,
        ;
        lemma_quotient_bound(SCALE * kept, full as int, SCALE as int);
    }
    let score: u128 = (1_000_000 * kept) / full;
    Ok(score as u32)
}

/// The sum of the roots is at most the mean of the two bin totals, and is
/// that mean where the two histograms are the same.
pub proof fn lemma_root_sum(h1: Seq<int>, h2: Seq<int>, m: int)
    requires
        0 <= m <= h1.len(),
        m <= h2.len(),
        forall|v: int| 0 <= v < m ==> 0 <= #[trigger] h1[v],
        forall|v: int| 0 <= v < m ==> 0 <= #[trigger] h2[v],
    ensures
        0 <= root_sum(h1, h2, m),
        2 * root_sum(h1, h2, m) <= (bins_total(h1, m) + bins_total(h2, m)) * SCALE,
        root_sum(h1, h2, m) == root_sum(h2, h1, m),
        root_sum(h1, h1, m) == bins_total(h1, m) * SCALE,
    decreases m,
{
    if m > 0 {
        lemma_root_sum(h1, h2, m - 1);
        let p = h1[m - 1] as nat;
        let q = h2[m - 1] as nat;
        let s = 1_000_000nat;
        assert(h1[m - 1] == p && h2[m - 1] == q);
        lemma_root_below_mean(p, q, s);
        lemma_root_of_square(p, s);
        assert(p * q * s * s == q * p * s * s) by (nonlinear_arith);
        let r = floor_sqrt(p * q * s * s);
        let t1 = bins_total(h1, m - 1);
        let t2 = bins_total(h2, m - 1);
        let before = root_sum(h1, h2, m - 1);
        assert(2 * (before + r) <= (t1 + p + t2 + q) * SCALE) by (nonlinear_arith)
            requires
                2 * before <= (t1 + t2) * SCALE,
                2 * r <= (p + q) * s,
                s == SCALE,
        ;
        assert(t1 * SCALE + p * s == (t1 + p) * SCALE) by (nonlinear_arith)
            requires
                s == SCALE,
        ;
    } else {
        assert((bins_total(h1, 0) + bins_total(h2, 0)) * SCALE == 0) by (nonlinear_arith)
            requires
                bins_total(h1, 0) == 0,
                bins_total(h2, 0) == 0,
        ;
        assert(bins_total(h1, 0) * SCALE == 0) by (nonlinear_arith)
            requires
                bins_total(h1, 0) == 0,
        ;
    }
}

fn intensity_histogram(pixels: &Vec<u8>) -> (bins: Vec<u32>)
    requires
        pixels@.len() <= u32::MAX,
    ensures
        bins@.len() == 256,
        forall|v: int| 0 <= v < 256 ==> #[trigger] bins@[v] == histogram_of(pixels@)[v],
{
    let mut bins: Vec<u32> = Vec::new();
    let mut v: usize = 0;
    while v < 256
        invariant
            v <= 256,
            bins@.len() == v,
            forall|k: int| 0 <= k < v ==> #[trigger] bins@[k] == 0,
        decreases 256 - v,
    {
        bins.push(0);
        v += 1;
    }
    let mut i: usize = 0;
    while i < pixels.len()
        invariant
            i <= pixels@.len(),
            pixels@.len() <= u32::MAX,
            bins@.len() == 256,
            forall|k: int| 0 <= k < 256 ==> #[trigger] bins@[k] == count_of(pixels@, k, i as int),
        decreases pixels.len() - i,
    {
        let p: usize = pixels[i] as usize;
        proof {
            lemma_count_bounds(pixels@, p as int, i as int);
        }
        let c: u32 = bins[p];
        bins.set(p, c + 1);
        i += 1;
    }
    bins
}

/// Compares two frames by the overlap of their intensity histograms.
pub fn histogram_similarity(a: &GrayFrame, b: &GrayFrame) -> (result: Result<u32, SimilarityError>)
    ensures
        match result {
            Ok(score) => similarity_of(a@, b@, SimilarityAlgorithm::Histogram) == Ok::<
                int,
                SimilarityError,
            >(score as int) && score <= SCALE,
            Err(e) => similarity_of(a@, b@, SimilarityAlgorithm::Histogram) == Err::<
                int,
                SimilarityError,
            >(e),
        },
{
    proof {
        use_type_invariant(a);
        use_type_invariant(b);
    }
    match check_dimensions(a, b) {
        Err(e) => {
            return Err(e);
        },
        Ok(_) => {},
    }
    let n: usize = a.pixels.len();
    assert(n == b.pixels@.len()) by (nonlinear_arith)
        requires
            n == a@.width * a@.height,
            b.pixels@.len() == b@.width * b@.height,
            a@.width == b@.width,
            a@.height == b@.height,
    ;
    if n == 0 {
        return Ok(SCALE);
    }
    let h1 = intensity_histogram(&a.pixels);
    let h2 = intensity_histogram(&b.pixels);
    let ghost m1 = histogram_of(a.pixels@);
    let ghost m2 = histogram_of(b.pixels@);
    proof {
        lemma_histogram_total(a.pixels@);
        lemma_histogram_total(b.pixels@);
    }
    let mut acc: u128 = 0;
    let mut v: usize = 0;
    while v < 256
        invariant
            v <= 256,
            n <= u32::MAX,
            n == a.pixels@.len(),
            n == b.pixels@.len(),
            m1 == histogram_of(a.pixels@),
            m2 == histogram_of(b.pixels@),
            h1@.len() == 256,
            h2@.len() == 256,
            forall|k: int| 0 <= k < 256 ==> #[trigger] h1@[k] == m1[k],
            forall|k: int| 0 <= k < 256 ==> #[trigger] h2@[k] == m2[k],
            forall|k: int| 0 <= k < 256 ==> 0 <= #[trigger] m1[k] <= n,
            forall|k: int| 0 <= k < 256 ==> 0 <= #[trigger] m2[k] <= n,
            acc == root_sum(m1, m2, v as int),
            acc <= 0xffff_ffff * 1_000_000 * 256,
        decreases 256 - v,
    {
        let x: u128 = h1[v] as u128;
        let y: u128 = h2[v] as u128;
        assert(m1[v as int] == x && m2[v as int] == y);
        assert(x * y <= 0xffff_ffff * 0xffff_ffff) by (nonlinear_arith)
            requires
                0 <= x <= 0xffff_ffff,
                0 <= y <= 0xffff_ffff,
        ;
        let product: u128 = x * y * 1_000_000 * 1_000_000;
        let root: u128 = isqrt(product);
        proof {
            lemma_root_below_mean(x as nat, y as nat, 1_000_000);
            lemma_root_sum(m1, m2, v as int);
            assert(root <= 0xffff_ffff * 1_000_000);
            assert(root_sum(m1, m2, v + 1) == acc + root);
            lemma_root_sum(m1, m2, v + 1);
            assert(bins_total(m1, v + 1) <= 256 * n && bins_total(m2, v + 1) <= 256 * n) by {
                lemma_bins_bound(m1, v + 1, n as int);
                lemma_bins_bound(m2, v + 1, n as int);
                assert((v + 1) * n <= 256 * n) by (nonlinear_arith)
                    requires
                        v + 1 <= 256,
                        0 <= n,
                ;
            }
            assert(acc + root <= 0xffff_ffff * 1_000_000 * 256) by (nonlinear_arith)
                requires
                    2 * (acc + root) <= (bins_total(m1, v + 1) + bins_total(m2, v + 1)) * SCALE,
                    bins_total(m1, v + 1) <= 256 * n,
                    bins_total(m2, v + 1) <= 256 * n,
                    n <= 0xffff_ffff,
                    SCALE == 1_000_000,
            ;
        }
        acc = acc + root;
        v += 1;
    }
    proof {
        lemma_root_sum(m1, m2, 256);
        assert(acc <= SCALE * n) by (nonlinear_arith)
            requires
                2 * acc <= (n + n) * SCALE,
        ;
        lemma_quotient_bound(acc as int, n as int, SCALE as int);
    }
    let score: u128 = acc / (n as u128);
    Ok(score as u32)
}

proof fn lemma_bins_bound(h: Seq<int>, m: int, limit: int)
    requires
        0 <= m <= h.len(),
        0 <= limit,
        forall|k: int| 0 <= k < m ==> 0 <= #[trigger] h[k] <= limit,
    ensures
        0 <= bins_total(h, m) <= m * limit,
    decreases m,
{
    if m > 0 {
        lemma_bins_bound(h, m - 1, limit);
        assert((m - 1) * limit + limit == m * limit) by (nonlinear_arith);
    } else {
        assert(0 * limit == 0) by (nonlinear_arith);
    }
}

proof fn lemma_mul_bound(x: int, y: int, bx: int, by: int)
    requires
        0 <= x <= bx,
        0 <= y <= by,
    ensures
        0 <= x * y <= bx * by,
{
    assert(0 <= x * y <= bx * by) by (nonlinear_arith)
        requires
            0 <= x <= bx,
            0 <= y <= by,
    ;
}

/// The terms of the structural index over `n > 0` pixel pairs: both
/// denominators are positive, the luminance term lies between zero and one,
/// and the structure term between minus one and one.
pub proof fn lemma_ssim_terms(a: Seq<u8>, b: Seq<u8>)
    requires
        a.len() == b.len(),
        a.len() > 0,
    ensures
        ({
            let n = a.len() as int;
            let s1 = sum_of(a, n);
            let s2 = sum_of(b, n);
            let q1 = sum_squares(a, n);
            let q2 = sum_squares(b, n);
            let p = sum_products(a, b, n);
            &&& luminance_den(n, s1, s2) > 0
            &&& 0 <= luminance_num(n, s1, s2) <= luminance_den(n, s1, s2)
            &&& structure_den(n, s1, s2, q1, q2) > 0
            &&& 0 <= structure_num_plus_den(n, s1, s2, q1, q2, p) <= 2 * structure_den(
                n,
                s1,
                s2,
                q1,
                q2,
            )
            &&& n * (q1 + q2) >= s1 * s1 + s2 * s2
            &&& n * (q1 + q2 + 2 * p) >= (s1 + s2) * (s1 + s2)
        }),
{
    let n = a.len() as int;
    let s1 = sum_of(a, n);
    let s2 = sum_of(b, n);
    let q1 = sum_squares(a, n);
    let q2 = sum_squares(b, n);
    let p = sum_products(a, b, n);
    lemma_sum_bounds(a, b, n);
    lemma_sum_bounds(b, a, n);
    lemma_variance(a, n);
    lemma_variance(b, n);
    lemma_cauchy(a, b, 1, n);
    lemma_cauchy(a, b, -1, n);
    assert(n * n > 0) by (nonlinear_arith)
        requires
            n > 0,
    ;
    assert(0 <= 2 * (s1 * s2) <= s1 * s1 + s2 * s2) by (nonlinear_arith)
        requires
            0 <= s1,
            0 <= s2,
    ;
    assert(n * (q1 + q2) - (s1 * s1 + s2 * s2) >= 0) by (nonlinear_arith)
        requires
            n * q1 >= s1 * s1,
            n * q2 >= s2 * s2,
    ;
    assert(n * (q1 + q2 + 2 * p) - (s1 + s2) * (s1 + s2) >= 0) by (nonlinear_arith)
        requires
            n * (q1 + q2 + 2 * 1 * p) >= (s1 + 1 * s2) * (s1 + 1 * s2),
    ;
    assert(2 * (n * (q1 + q2) - (s1 * s1 + s2 * s2)) - (n * (q1 + q2 + 2 * p) - (s1 + s2) * (s1
        + s2)) >= 0) by (nonlinear_arith)
        requires
            n * (q1 + q2 + 2 * (-1) * p) >= (s1 + (-1) * s2) * (s1 + (-1) * s2),
    ;
}

/// The structural score lies between zero and one.
pub proof fn lemma_ssim_range(a: Seq<u8>, b: Seq<u8>)
    requires
        a.len() == b.len(),
    ensures
        0 <= ssim_score(a, b) <= SCALE,
{
    let n = a.len() as int;
    if n > 0 {
        let s1 = sum_of(a, n);
        let s2 = sum_of(b, n);
        let q1 = sum_squares(a, n);
        let q2 = sum_squares(b, n);
        let p = sum_products(a, b, n);
        lemma_ssim_terms(a, b);
        let ln = luminance_num(n, s1, s2);
        let ld = luminance_den(n, s1, s2);
        let u = structure_num_plus_den(n, s1, s2, q1, q2, p);
        let cd = structure_den(n, s1, s2, q1, q2);
        assert(0 <= SCALE * ln <= SCALE * ld) by (nonlinear_arith)
            requires
                0 <= ln <= ld,
        ;
        lemma_quotient_bound(SCALE * ln, ld, SCALE as int);
        assert(0 <= SCALE * u <= (2 * SCALE) * cd) by (nonlinear_arith)
            requires
                0 <= u <= 2 * cd,
        ;
        lemma_quotient_bound(SCALE * u, cd, 2 * SCALE);
        let l = (SCALE * ln) / ld;
        let c = (SCALE * u) / cd;
        assert(0 <= l * c + SCALE * (SCALE - l) <= SCALE * (2 * SCALE)) by (nonlinear_arith)
            requires
                0 <= l <= SCALE,
                0 <= c <= 2 * SCALE,
        ;
        lemma_quotient_bound(l * c + SCALE * (SCALE - l), 2 * SCALE, SCALE as int);
    }
}

/// Compares two frames by their structural similarity over a single window.
pub fn ssim_similarity(a: &GrayFrame, b: &GrayFrame) -> (result: Result<u32, SimilarityError>)
    ensures
        match result {
            Ok(score) => similarity_of(a@, b@, SimilarityAlgorithm::SSIM) == Ok::<
                int,
                SimilarityError,
            >(score as int) && score <= SCALE,
            Err(e) => similarity_of(a@, b@, SimilarityAlgorithm::SSIM) == Err::<
                int,
                SimilarityError,
            >(e),
        },
{
    proof {
        use_type_invariant(a);
        use_type_invariant(b);
    }
    match check_dimensions(a, b) {
        Err(e) => {
            return Err(e);
        },
        Ok(_) => {},
    }
    let count: usize = a.pixels.len();
    assert(count == b.pixels@.len()) by (nonlinear_arith)
        requires
            count == a@.width * a@.height,
            b.pixels@.len() == b@.width * b@.height,
            a@.width == b@.width,
            a@.height == b@.height,
    ;
    if count == 0 {
        return Ok(SCALE);
    }
    let mut sum1: u64 = 0;
    let mut sum2: u64 = 0;
    let mut squares1: u64 = 0;
    let mut squares2: u64 = 0;
    let mut products: u64 = 0;
    let mut i: usize = 0;
    while i < count
        invariant
            i <= count,
            count == a.pixels@.len(),
            count == b.pixels@.len(),
            count <= u32::MAX,
            sum1 == sum_of(a.pixels@, i as int),
            sum2 == sum_of(b.pixels@, i as int),
            squares1 == sum_squares(a.pixels@, i as int),
            squares2 == sum_squares(b.pixels@, i as int),
            products == sum_products(a.pixels@, b.pixels@, i as int),
        decreases count - i,
    {
        proof {
            lemma_sum_bounds(a.pixels@, b.pixels@, i as int);
            lemma_sum_bounds(b.pixels@, a.pixels@, i as int);
            lemma_sum_bounds(a.pixels@, b.pixels@, i + 1);
            lemma_sum_bounds(b.pixels@, a.pixels@, i + 1);
        }
        let x: u64 = a.pixels[i] as u64;
        let y: u64 = b.pixels[i] as u64;
        proof {
            lemma_mul_bound(x as int, x as int, 255, 255);
            lemma_mul_bound(y as int, y as int, 255, 255);
            lemma_mul_bound(x as int, y as int, 255, 255);
        }
        sum1 = sum1 + x;
        sum2 = sum2 + y;
        squares1 = squares1 + x * x;
        squares2 = squares2 + y * y;
        products = products + x * y;
        i += 1;
    }
    let n: u128 = count as u128;
    let s1: u128 = sum1 as u128;
    let s2: u128 = sum2 as u128;
    let q1: u128 = squares1 as u128;
    let q2: u128 = squares2 as u128;
    let p: u128 = products as u128;
    proof {
        lemma_sum_bounds(a.pixels@, b.pixels@, count as int);
        lemma_sum_bounds(b.pixels@, a.pixels@, count as int);
        lemma_ssim_terms(a.pixels@, b.pixels@);
        lemma_ssim_range(a.pixels@, b.pixels@);
        lemma_mul_bound(n as int, n as int, 0xffff_ffff, 0xffff_ffff);
        lemma_mul_bound(s1 as int, s2 as int, 1095216660225, 1095216660225);
        lemma_mul_bound(s1 as int, s1 as int, 1095216660225, 1095216660225);
        lemma_mul_bound(s2 as int, s2 as int, 1095216660225, 1095216660225);
        lemma_mul_bound(n as int, (q1 + q2) as int, 0xffff_ffff, 558560496714750);
        lemma_mul_bound(n as int, (q1 + q2 + 2 * p) as int, 0xffff_ffff, 1117120993429500);
        lemma_mul_bound((s1 + s2) as int, (s1 + s2) as int, 2190433320450, 2190433320450);
    }
    let nn: u128 = n * n;
    let ln: u128 = 20000 * (s1 * s2) + 65025 * nn;
    let ld: u128 = 10000 * (s1 * s1 + s2 * s2) + 65025 * nn;
    let cd: u128 = 10000 * (n * (q1 + q2) - (s1 * s1 + s2 * s2)) + 585225 * nn;
    let u: u128 = 10000 * (n * (q1 + q2 + 2 * p) - (s1 + s2) * (s1 + s2)) + 1170450 * nn;
    proof {
        assert(ln == luminance_num(n as int, s1 as int, s2 as int));
        assert(ld == luminance_den(n as int, s1 as int, s2 as int));
        assert(cd == structure_den(n as int, s1 as int, s2 as int, q1 as int, q2 as int));
        assert(u == structure_num_plus_den(
            n as int,
            s1 as int,
            s2 as int,
            q1 as int,
            q2 as int,
            p as int,
        ));
        assert(0 <= SCALE * ln <= SCALE * ld) by (nonlinear_arith)
            requires
                0 <= ln <= ld,
        ;
        lemma_quotient_bound(SCALE * ln, ld as int, SCALE as int);
        assert(0 <= SCALE * u <= (2 * SCALE) * cd) by (nonlinear_arith)
            requires
                0 <= u <= 2 * cd,
        ;
        lemma_quotient_bound(SCALE * u, cd as int, 2 * SCALE);
    }
    let l: u128 = (1_000_000 * ln) / ld;
    let c: u128 = (1_000_000 * u) / cd;
    proof {
        assert(0 <= l * c + SCALE * (SCALE - l) <= SCALE * (2 * SCALE)) by (nonlinear_arith)
            requires
                0 <= l <= SCALE,
                0 <= c <= 2 * SCALE,
        ;
        lemma_mul_bound(l as int, c as int, SCALE as int, 2 * SCALE);
    }
    let score: u128 = (l * c + 1_000_000 * (1_000_000 - l)) / 2_000_000;
    Ok(score as u32)
}

/// Compares two frames of equal size under the chosen algorithm.
pub fn calculate_similarity(a: &GrayFrame, b: &GrayFrame, algorithm: SimilarityAlgorithm) -> (result:
    Result<u32, SimilarityError>)
    ensures
        match result {
            Ok(score) => similarity_of(a@, b@, algorithm) == Ok::<int, SimilarityError>(
                score as int,
            ) && score <= SCALE,
            Err(e) => similarity_of(a@, b@, algorithm) == Err::<int, SimilarityError>(e),
        },
{
    match algorithm {
        SimilarityAlgorithm::Histogram => histogram_similarity(a, b),
        SimilarityAlgorithm::SSIM => ssim_similarity(a, b),
        SimilarityAlgorithm::FrameDiff => frame_diff_similarity(a, b),
    }
}

/// A frame compared with itself scores exactly one, under every algorithm.
pub proof fn lemma_identical_frames(a: FrameView, algorithm: SimilarityAlgorithm)
    ensures
        similarity_of(a, a, algorithm) == Ok::<int, SimilarityError>(SCALE as int),
{
    let px = a.pixels;
    let n = px.len() as int;
    if n > 0 {
        lemma_sums_symmetric(px, px, n);
        match algorithm {
            SimilarityAlgorithm::FrameDiff => {
                lemma_exact_quotient(SCALE as int, 255 * n);
            },
            SimilarityAlgorithm::Histogram => {
                lemma_histogram_total(px);
                lemma_root_sum(histogram_of(px), histogram_of(px), 256);
                assert(n * SCALE == SCALE * n) by (nonlinear_arith);
                lemma_exact_quotient(SCALE as int, n);
            },
            SimilarityAlgorithm::SSIM => {
                let s = sum_of(px, n);
                let q = sum_squares(px, n);
                lemma_ssim_terms(px, px);
                let ld = luminance_den(n, s, s);
                let cd = structure_den(n, s, s, q, q);
                assert(luminance_num(n, s, s) == ld);
                assert(structure_num_plus_den(n, s, s, q, q, q) == 2 * cd) by (nonlinear_arith)
                    requires
                        structure_num_plus_den(n, s, s, q, q, q) == 10000 * (n * (q + q + 2 * q)
                            - (s + s) * (s + s)) + 1170450 * (n * n),
                        cd == 10000 * (n * (q + q) - (s * s + s * s)) + 585225 * (n * n),
                ;
                lemma_exact_quotient(SCALE as int, ld);
                assert(SCALE * (2 * cd) == (2 * SCALE) * cd) by (nonlinear_arith);
                lemma_exact_quotient(2 * SCALE, cd);
                let l = (SCALE * ld) / ld;
                let c = (SCALE * (2 * cd)) / cd;
                assert(l * c + SCALE * (SCALE - l) == SCALE * (2 * SCALE)) by (nonlinear_arith)
                    requires
                        l == SCALE,
                        c == 2 * SCALE,
                ;
                lemma_exact_quotient(SCALE as int, 2 * SCALE);
            },
        }
    }
}

/// The score of two frames does not depend on which of them comes first.
pub proof fn lemma_symmetric_scores(a: Seq<u8>, b: Seq<u8>, algorithm: SimilarityAlgorithm)
    requires
        a.len() == b.len(),
    ensures
        score_of(a, b, algorithm) == score_of(b, a, algorithm),
{
    let n = a.len() as int;
    if n > 0 {
        lemma_sums_symmetric(a, b, n);
        match algorithm {
            SimilarityAlgorithm::FrameDiff => {},
            SimilarityAlgorithm::Histogram => {
                lemma_histogram_total(a);
                lemma_histogram_total(b);
                lemma_root_sum(histogram_of(a), histogram_of(b), 256);
            },
            SimilarityAlgorithm::SSIM => {
                let s1 = sum_of(a, n);
                let s2 = sum_of(b, n);
                let q1 = sum_squares(a, n);
                let q2 = sum_squares(b, n);
                let p = sum_products(a, b, n);
                assert(luminance_num(n, s1, s2) == luminance_num(n, s2, s1)) by (nonlinear_arith)
                    requires
                        luminance_num(n, s1, s2) == 20000 * (s1 * s2) + 65025 * (n * n),
                        luminance_num(n, s2, s1) == 20000 * (s2 * s1) + 65025 * (n * n),
                ;
                assert(luminance_den(n, s1, s2) == luminance_den(n, s2, s1));
                assert(structure_den(n, s1, s2, q1, q2) == structure_den(n, s2, s1, q2, q1))
                    by (nonlinear_arith)
                    requires
                        structure_den(n, s1, s2, q1, q2) == 10000 * (n * (q1 + q2) - (s1 * s1 + s2
                            * s2)) + 585225 * (n * n),
                        structure_den(n, s2, s1, q2, q1) == 10000 * (n * (q2 + q1) - (s2 * s2 + s1
                            * s1)) + 585225 * (n * n),
                ;
                assert(structure_num_plus_den(n, s1, s2, q1, q2, p) == structure_num_plus_den(
                    n,
                    s2,
                    s1,
                    q2,
                    q1,
                    p,
                )) by (nonlinear_arith)
                    requires
                        structure_num_plus_den(n, s1, s2, q1, q2, p) == 10000 * (n * (q1 + q2 + 2
                            * p) - (s1 + s2) * (s1 + s2)) + 1170450 * (n * n),
                        structure_num_plus_den(n, s2, s1, q2, q1, p) == 10000 * (n * (q2 + q1 + 2
                            * p) - (s2 + s1) * (s2 + s1)) + 1170450 * (n * n),
                ;
            },
        }
    }
}

/// The similarity of two frames does not depend on which of them comes
/// first, as far as a score is concerned; a mismatch names the sizes in the
/// order in which the frames were given.
pub proof fn lemma_symmetric_similarity(a: FrameView, b: FrameView, algorithm: SimilarityAlgorithm)
    requires
        frame_wf(a),
        frame_wf(b),
    ensures
        similarity_of(a, b, algorithm) is Ok <==> similarity_of(b, a, algorithm) is Ok,
        similarity_of(a, b, algorithm) is Ok ==> similarity_of(a, b, algorithm) == similarity_of(
            b,
            a,
            algorithm,
        ),
{
    if a.width == b.width && a.height == b.height {
        lemma_symmetric_scores(a.pixels, b.pixels, algorithm);
    }
}

/// Every score lies between zero and one.
pub proof fn lemma_score_range(a: Seq<u8>, b: Seq<u8>, algorithm: SimilarityAlgorithm)
    requires
        a.len() == b.len(),
    ensures
        0 <= score_of(a, b, algorithm) <= SCALE,
{
    let n = a.len() as int;
    if n > 0 {
        match algorithm {
            SimilarityAlgorithm::FrameDiff => {
                lemma_sum_bounds(a, b, n);
                let kept = 255 * n - sum_abs_diff(a, b, n);
                assert(0 <= SCALE * kept <= SCALE * (255 * n)) by (nonlinear_arith)
                    requires
                        0 <= kept <= 255 * n,
                ;
                lemma_quotient_bound(SCALE * kept, 255 * n, SCALE as int);
            },
            SimilarityAlgorithm::Histogram => {
                lemma_histogram_total(a);
                lemma_histogram_total(b);
                lemma_root_sum(histogram_of(a), histogram_of(b), 256);
                let acc = root_sum(histogram_of(a), histogram_of(b), 256);
                assert(acc <= SCALE * n) by (nonlinear_arith)
                    requires
                        2 * acc <= (n + n) * SCALE,
                ;
                lemma_quotient_bound(acc, n, SCALE as int);
            },
            SimilarityAlgorithm::SSIM => {
                lemma_ssim_range(a, b);
            },
        }
    }
}

#[verifier::external_type_specification]
#[verifier::external_body]
pub struct ExDynamicImage(image::DynamicImage);

/// The grayscale intensities of a decoded image, row by row from the top,
/// each row from the left: what `image::DynamicImage::to_luma8` makes of it.
pub uninterp spec fn luma_rows(image: image::DynamicImage) -> Seq<Seq<u8>>;

/// `image::DynamicImage::to_luma8`, with the width and height of the buffer
/// it returns and the samples that the buffer's `pixels` walks through. The
/// buffer has `height` rows of `width` pixels, one sample each, and `pixels`
/// goes through them row after row.
#[verifier::external_body]
fn luma_parts(image: &image::DynamicImage) -> (parts: (u32, u32, Vec<u8>))
    ensures
        luma_rows(*image).len() == parts.1,
        forall|r: int| 0 <= r < parts.1 ==> (#[trigger] luma_rows(*image)[r]).len() == parts.0,
        parts.2@ == luma_rows(*image).flatten(),
        parts.2@.len() == parts.0 * parts.1,
{
    let gray = image.to_luma8();
    (gray.width(), gray.height(), gray.pixels().map(|p| p.0[0]).collect())
}

/// Converts a decoded image to a grayscale frame. There is none for an image
/// of more pixels than 32 bits can count.
pub fn gray_frame_of(image: &image::DynamicImage) -> (frame: Option<GrayFrame>)
    ensures
        match frame {
            Some(f) => {
                &&& frame_wf(f@)
                &&& f@.pixels == luma_rows(*image).flatten()
                &&& f@.height == luma_rows(*image).len()
                &&& forall|r: int|
                    0 <= r < f@.height ==> (#[trigger] luma_rows(*image)[r]).len() == f@.width
            },
            None => luma_rows(*image).flatten().len() > u32::MAX,
        },
{
    let parts = luma_parts(image);
    GrayFrame::new(parts.0, parts.1, parts.2)
}

} // verus!

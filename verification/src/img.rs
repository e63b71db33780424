//! The numeric pipeline: histogram construction, Otsu's optimal-threshold
//! search, binarization, and isolated-pixel removal, all over an owned
//! in-memory pixel grid.

use vstd::prelude::*;

verus! {

/// Number of representable gray levels in an 8-bit image.
pub const MAXL: usize = 256;

/// Largest pixel count the threshold selector accepts; it keeps every
/// 128-bit intermediate product of the selector free of overflow.
pub const PIXEL_LIMIT: usize = 0x2000_0000;

/// A single-channel 8-bit image, stored row major: the pixel at column `x`
/// and row `y` lives at index `y * width + x`.
pub struct Grid {
    width: usize,
    height: usize,
    data: Vec<u8>,
}

impl View for Grid {
    type V = Seq<u8>;

    closed spec fn view(&self) -> Seq<u8> {
        self.data@
    }
}

/// A row-major index stays strictly below the pixel count.
proof fn lemma_rowmajor_bound(x: int, y: int, w: int, h: int)
    by (nonlinear_arith)
    requires
        0 <= x < w,
        0 <= y < h,
    ensures
        0 <= y * w + x < w * h,
{
}

impl Grid {
    pub closed spec fn spec_width(&self) -> usize {
        self.width
    }

    pub closed spec fn spec_height(&self) -> usize {
        self.height
    }

    /// A grid is well formed when it holds exactly `width * height` pixels.
    pub open spec fn wf(&self) -> bool {
        self@.len() == self.spec_width() * self.spec_height()
    }

    #[verifier::when_used_as_spec(spec_width)]
    pub fn width(&self) -> (w: usize)
        ensures
            w == self.spec_width(),
    {
        self.width
    }

    #[verifier::when_used_as_spec(spec_height)]
    pub fn height(&self) -> (h: usize)
        ensures
            h == self.spec_height(),
    {
        self.height
    }

    pub fn new(width: usize, height: usize, data: Vec<u8>) -> (g: Grid)
        requires
            data@.len() == width * height,
        ensures
            g.wf(),
            g@ == data@,
            g.spec_width() == width,
            g.spec_height() == height,
    {
        Grid { width, height, data }
    }

    pub fn get(&self, x: usize, y: usize) -> (p: u8)
        requires
            self.wf(),
            x < self.spec_width(),
            y < self.spec_height(),
        ensures
            p == self@[y * self.spec_width() + x],
    {
        let total = self.data.len();
        proof {
            assert(total == self@.len());
            lemma_rowmajor_bound(x as int, y as int, self.width as int, self.height as int);
        }
        self.data[y * self.width + x]
    }

    pub fn into_data(self) -> (d: Vec<u8>)
        ensures
            d@ == self@,
    {
        self.data
    }
}

/// How many pixels of `s` hold exactly the gray value `v`.
pub open spec fn count_px(s: Seq<u8>, v: int) -> nat
    decreases s.len(),
{
    if s.len() == 0 {
        0
    } else {
        count_px(s.drop_last(), v) + if s.last() as int == v {
            1nat
        } else {
            0nat
        }
    }
}

/// How many pixels of `s` hold a gray value at most `v`.
pub open spec fn count_le(s: Seq<u8>, v: int) -> nat
    decreases s.len(),
{
    if s.len() == 0 {
        0
    } else {
        count_le(s.drop_last(), v) + if s.last() as int <= v {
            1nat
        } else {
            0nat
        }
    }
}

/// The (unnormalized) histogram of a pixel sequence: 256 per-level counts.
pub open spec fn hist_of(s: Seq<u8>) -> Seq<nat> {
    Seq::new(256, |v: int| count_px(s, v))
}

proof fn lemma_count_push(s: Seq<u8>, p: u8, v: int)
    ensures
        count_px(s.push(p), v) == count_px(s, v) + if p as int == v {
            1nat
        } else {
            0nat
        },
{
    assert(s.push(p).drop_last() =~= s);
}

proof fn lemma_count_le_len(s: Seq<u8>, v: int)
    ensures
        count_px(s, v) <= s.len(),
    decreases s.len(),
{
    if s.len() > 0 {
        lemma_count_le_len(s.drop_last(), v);
    }
}

/// Builds the histogram of a grid: entry `v` counts the pixels whose gray
/// value is exactly `v`. The frequency distribution of the grid is this
/// count divided by the pixel total, which `lemma_histogram_total` shows
/// the entries sum to.
pub fn get_histogram(img: &Grid) -> (hist: Vec<u64>)
    ensures
        hist@.len() == 256,
        forall|v: int| 0 <= v < 256 ==> hist@[v] as nat == count_px(img@, v),
        forall|v: int| 0 <= v < 256 ==> hist@[v] as nat == hist_of(img@)[v],
{
    let mut hist: Vec<u64> = Vec::new();
    let mut v: usize = 0;
    while v < MAXL
        invariant
            hist@.len() == v,
            v <= 256,
            forall|j: int| 0 <= j < v ==> hist@[j] == 0u64,
        decreases 256 - v,
    {
        hist.push(0);
        v += 1;
    }
    let n = img.data.len();
    let mut i: usize = 0;
    while i < n
        invariant
            n == img@.len(),
            i <= n,
            hist@.len() == 256,
            forall|j: int| 0 <= j < 256 ==> hist@[j] as nat == count_px(img@.take(i as int), j),
        decreases n - i,
    {
        let p = img.data[i];
        let idx = p as usize;
        proof {
            lemma_count_le_len(img@.take(i as int), p as int);
            assert(img@.take(i as int).len() == i);
        }
        let c = hist[idx];
        hist.set(idx, c + 1);
        proof {
            assert(img@.take(i + 1 as int) =~= img@.take(i as int).push(img@[i as int]));
            assert forall|j: int| 0 <= j < 256 implies hist@[j] as nat == count_px(
                img@.take(i + 1 as int),
                j,
            ) by {
                lemma_count_push(img@.take(i as int), p, j);
            }
        }
        i += 1;
    }
    proof {
        assert(img@.take(n as int) =~= img@);
    }
    hist
}

/// Cumulative class probability mass, scaled by the pixel total: the number
/// of pixels whose gray value is at most `k` (the class "<= k").
pub open spec fn wsum(h: Seq<nat>, k: int) -> nat
    decreases k + 1,
{
    if k < 0 {
        0
    } else {
        wsum(h, k - 1) + h[k]
    }
}

/// Cumulative class first moment, scaled by the pixel total: the sum of
/// `v * h[v]` over the gray values `v <= k`.
pub open spec fn msum(h: Seq<nat>, k: int) -> nat
    decreases k + 1,
{
    if k < 0 {
        0
    } else {
        msum(h, k - 1) + (k * h[k]) as nat
    }
}

proof fn lemma_count_le_split(s: Seq<u8>, k: int)
    ensures
        count_le(s, k) == count_le(s, k - 1) + count_px(s, k),
    decreases s.len(),
{
    if s.len() > 0 {
        lemma_count_le_split(s.drop_last(), k);
    }
}

proof fn lemma_count_le_all(s: Seq<u8>)
    ensures
        count_le(s, 255) == s.len(),
    decreases s.len(),
{
    if s.len() > 0 {
        lemma_count_le_all(s.drop_last());
    }
}

proof fn lemma_wsum_count(s: Seq<u8>, k: int)
    requires
        -1 <= k < 256,
    ensures
        wsum(hist_of(s), k) == count_le(s, k),
    decreases k + 1,
{
    if k >= 0 {
        lemma_wsum_count(s, k - 1);
        lemma_count_le_split(s, k);
    } else {
        assert(count_le(s, -1) == 0) by {
            lemma_count_le_neg(s, -1);
        }
    }
}

proof fn lemma_count_le_neg(s: Seq<u8>, k: int)
    requires
        k < 0,
    ensures
        count_le(s, k) == 0,
    decreases s.len(),
{
    if s.len() > 0 {
        lemma_count_le_neg(s.drop_last(), k);
    }
}

/// The histogram entries of a pixel sequence sum to its length: the
/// normalized frequency distribution sums to exactly one.
pub proof fn lemma_histogram_total(s: Seq<u8>)
    ensures
        wsum(hist_of(s), 255) == s.len(),
{
    lemma_wsum_count(s, 255);
    lemma_count_le_all(s);
}

/// A split at level `k` is valid when both classes are non-empty:
/// `0 < omega(k) < 1` over the normalized histogram.
pub open spec fn valid_k(h: Seq<nat>, k: int) -> bool {
    0 < wsum(h, k) < wsum(h, 255)
}

/// Some level up to `k` gives a valid split.
pub open spec fn has_valid(h: Seq<nat>, k: int) -> bool {
    exists|j: int| 0 <= j <= k && valid_k(h, j)
}

/// Numerator of the between-class variance at split `k`, scaled by the
/// squared pixel total: `mu_T * omega(k) - mu(k)` times `N * N` gives
/// `M * wsum(k) - msum(k) * N`.
pub open spec fn dnum(h: Seq<nat>, k: int) -> int {
    msum(h, 255) * wsum(h, k) - msum(h, k) * wsum(h, 255)
}

/// Denominator of the between-class variance at split `k`, scaled by the
/// squared pixel total: `omega(k) * (1 - omega(k))` times `N * N`.
pub open spec fn svar(h: Seq<nat>, k: int) -> int {
    wsum(h, k) * (wsum(h, 255) - wsum(h, k))
}

/// The between-class variance at split `j` strictly exceeds the one at `k`,
/// stated by cross-multiplying the two exact fractions
/// `dnum^2 / svar`; both splits must be valid for this to mean anything.
pub open spec fn var_gt(h: Seq<nat>, j: int, k: int) -> bool {
    dnum(h, j) * dnum(h, j) * svar(h, k) > dnum(h, k) * dnum(h, k) * svar(h, j)
}

/// The level Otsu's search settles on after scanning splits `0..=k`: the
/// first valid split achieving the maximal between-class variance, or 0 if
/// no split up to `k` is valid.
pub open spec fn otsu_best(h: Seq<nat>, k: int) -> int
    decreases k + 1,
{
    if k < 0 {
        0
    } else {
        let prev = otsu_best(h, k - 1);
        if !valid_k(h, k) {
            prev
        } else if !has_valid(h, k - 1) {
            k
        } else if var_gt(h, k, prev) {
            k
        } else {
            prev
        }
    }
}

/// The gray level Otsu's method selects for a pixel sequence.
pub open spec fn otsu_threshold(s: Seq<u8>) -> int {
    otsu_best(hist_of(s), 255)
}

/// Strict/non-strict transitivity for fractions compared by
/// cross-multiplication, with positive denominators.
proof fn lemma_frac_trans(a1: int, s1: int, a2: int, s2: int, a3: int, s3: int)
    by (nonlinear_arith)
    requires
        s1 > 0,
        s2 > 0,
        s3 > 0,
        a1 * s2 <= a2 * s1,
        a2 * s3 < a3 * s2,
    ensures
        a1 * s3 < a3 * s1,
{
}

proof fn lemma_svar_pos(h: Seq<nat>, k: int)
    by (nonlinear_arith)
    requires
        valid_k(h, k),
    ensures
        svar(h, k) > 0,
{
}

/// `otsu_best` really is the first argmax of the between-class variance
/// over the valid splits, and 0 when no split is valid.
pub proof fn lemma_otsu_best_argmax(h: Seq<nat>, k: int)
    ensures
        !has_valid(h, k) ==> otsu_best(h, k) == 0,
        has_valid(h, k) ==> {
            let b = otsu_best(h, k);
            &&& 0 <= b <= k
            &&& valid_k(h, b)
            &&& forall|j: int| 0 <= j <= k && valid_k(h, j) ==> !var_gt(h, j, b)
            &&& forall|j: int| 0 <= j < b && valid_k(h, j) ==> var_gt(h, b, j)
        },
    decreases k + 1,
{
    if k >= 0 {
        lemma_otsu_best_argmax(h, k - 1);
        let prev = otsu_best(h, k - 1);
        let b = otsu_best(h, k);
        if valid_k(h, k) && has_valid(h, k - 1) {
            lemma_svar_pos(h, k);
            lemma_svar_pos(h, prev);
            if var_gt(h, k, prev) {
                // the new split strictly beats the old best, hence every
                // earlier valid split
                assert forall|j: int| 0 <= j < k && valid_k(h, j) implies var_gt(h, k, j) by {
                    lemma_svar_pos(h, j);
                    lemma_frac_trans(
                        dnum(h, j) * dnum(h, j),
                        svar(h, j),
                        dnum(h, prev) * dnum(h, prev),
                        svar(h, prev),
                        dnum(h, k) * dnum(h, k),
                        svar(h, k),
                    );
                }
            }
        }
    }
}

proof fn lemma_wsum_mono(h: Seq<nat>, i: int, j: int)
    requires
        i <= j,
    ensures
        wsum(h, i) <= wsum(h, j),
        msum(h, i) <= msum(h, j),
    decreases j - i,
{
    if i < j {
        lemma_wsum_mono(h, i, j - 1);
    }
}

/// The first moment of the class `i..=j` is at most 255 times its mass.
proof fn lemma_msum_le(h: Seq<nat>, i: int, j: int)
    requires
        -1 <= i <= j <= 255,
    ensures
        msum(h, j) - msum(h, i) <= 255 * (wsum(h, j) - wsum(h, i)),
    decreases j - i,
{
    if i < j {
        lemma_msum_le(h, i, j - 1);
        assert(j * h[j] <= 255 * h[j]) by (nonlinear_arith)
            requires
                0 <= j <= 255,
        ;
    }
}

/// The variance numerator is bounded by 255 times the variance denominator.
proof fn lemma_dnum_bound(w: int, m: int, nn: int, mm: int)
    by (nonlinear_arith)
    requires
        0 <= w <= nn,
        0 <= m,
        m <= 255 * w,
        m <= mm,
        mm - m <= 255 * (nn - w),
    ensures
        -(255 * (w * (nn - w))) <= mm * w - m * nn <= 255 * (w * (nn - w)),
{
}

proof fn lemma_svar_quarter(w: int, nn: int)
    by (nonlinear_arith)
    requires
        0 <= w <= nn,
    ensures
        4 * (w * (nn - w)) <= nn * nn,
{
    assert((nn - 2 * w) * (nn - 2 * w) >= 0);
}

/// Lexicographic comparison of two scaled values against a shared scale.
proof fn lemma_lex_cmp(qa: int, x: int, qb: int, y: int, ss: int)
    by (nonlinear_arith)
    requires
        ss > 0,
        0 <= x < ss,
        0 <= y < ss,
    ensures
        (qa * ss + x > qb * ss + y) <==> (qa > qb || (qa == qb && x > y)),
{
}

/// Comparing two exact non-negative fractions by cross-multiplication is
/// the same as comparing their Euclidean quotients, then the cross products
/// of their remainders.
proof fn lemma_frac_cmp(a1: int, s1: int, a2: int, s2: int)
    requires
        s1 > 0,
        s2 > 0,
        a1 >= 0,
        a2 >= 0,
    ensures
        (a1 * s2 > a2 * s1) <==> ((a1 / s1 > a2 / s2) || (a1 / s1 == a2 / s2 && (a1 % s1) * s2 > (
        a2 % s2) * s1)),
{
    let q1 = a1 / s1;
    let r1 = a1 % s1;
    let q2 = a2 / s2;
    let r2 = a2 % s2;
    vstd::arithmetic::div_mod::lemma_fundamental_div_mod(a1, s1);
    vstd::arithmetic::div_mod::lemma_fundamental_div_mod(a2, s2);
    vstd::arithmetic::div_mod::lemma_mod_bound(a1, s1);
    vstd::arithmetic::div_mod::lemma_mod_bound(a2, s2);
    assert(a1 * s2 == q1 * (s1 * s2) + r1 * s2) by (nonlinear_arith)
        requires
            a1 == q1 * s1 + r1,
    ;
    assert(a2 * s1 == q2 * (s1 * s2) + r2 * s1) by (nonlinear_arith)
        requires
            a2 == q2 * s2 + r2,
    ;
    assert(0 <= r1 * s2 < s1 * s2 && 0 <= r2 * s1 < s1 * s2) by (nonlinear_arith)
        requires
            0 <= r1 < s1 && 0 <= r2 < s2,
    ;
    lemma_lex_cmp(q1, r1 * s2, q2, r2 * s1, s1 * s2);
}

proof fn lemma_mul_le(x: int, xb: int, y: int, yb: int)
    by (nonlinear_arith)
    requires
        0 <= x <= xb,
        0 <= y <= yb,
    ensures
        x * y <= xb * yb,
{
}

proof fn lemma_entry_le_wsum(h: Seq<nat>, k: int)
    requires
        0 <= k,
    ensures
        h[k] <= wsum(h, k),
        (k * h[k]) as int <= msum(h, k),
{
}

proof fn lemma_sq_abs(x: int, y: int)
    by (nonlinear_arith)
    requires
        x == -y,
    ensures
        x * x == y * y,
{
}

/// Computes k*, Otsu's optimal threshold: the first gray level whose valid
/// split maximizes the between-class variance, or 0 when no split is valid
/// (a perfectly uniform image). All arithmetic is exact, so the maximum is
/// the true one.
pub fn get_otsu_max_k(img: &Grid) -> (k: u8)
    requires
        img.wf(),
        img@.len() > 0,
        img@.len() <= PIXEL_LIMIT,
    ensures
        k as int == otsu_threshold(img@),
        !has_valid(hist_of(img@), 255) ==> k == 0,
        has_valid(hist_of(img@), 255) ==> {
            &&& valid_k(hist_of(img@), k as int)
            &&& forall|j: int|
                0 <= j < 256 && valid_k(hist_of(img@), j) ==> !var_gt(hist_of(img@), j, k as int)
            &&& forall|j: int|
                0 <= j < k as int && valid_k(hist_of(img@), j) ==> var_gt(
                    hist_of(img@),
                    k as int,
                    j,
                )
        },
{
    let hist = get_histogram(img);
    let ghost h = hist_of(img@);
    proof {
        lemma_histogram_total(img@);
    }
    let n64: u64 = img.data.len() as u64;

    // the global mean, scaled by the pixel total: mu_T * N == msum(h, 255)
    let mut mt: u64 = 0;
    let mut p: usize = 0;
    while p < MAXL
        invariant
            hist@.len() == 256,
            forall|v: int| 0 <= v < 256 ==> hist@[v] as nat == h[v],
            p <= 256,
            mt as nat == msum(h, p as int - 1),
            wsum(h, 255) == img@.len(),
            img@.len() <= PIXEL_LIMIT,
        decreases 256 - p,
    {
        proof {
            lemma_wsum_mono(h, p as int, 255);
            lemma_msum_le(h, -1, p as int);
            lemma_entry_le_wsum(h, p as int);
            lemma_mul_le(p as int, 255, h[p as int] as int, wsum(h, 255) as int);
        }
        mt = mt + (p as u64) * hist[p];
        p += 1;
    }

    let mut wk: u64 = 0;
    let mut mk: u64 = 0;
    let mut found: bool = false;
    let mut max_k: usize = 0;
    let mut best_d2: u128 = 0;
    let mut best_s: u128 = 0;
    let mut k: usize = 0;
    while k < MAXL
        invariant
            hist@.len() == 256,
            forall|v: int| 0 <= v < 256 ==> hist@[v] as nat == h[v],
            k <= 256,
            wsum(h, 255) == img@.len(),
            0 < img@.len() <= PIXEL_LIMIT,
            n64 as nat == wsum(h, 255),
            mt as nat == msum(h, 255),
            wk as nat == wsum(h, k as int - 1),
            mk as nat == msum(h, k as int - 1),
            found == has_valid(h, k as int - 1),
            max_k as int == otsu_best(h, k as int - 1),
            max_k < 256,
            found ==> valid_k(h, max_k as int) && best_d2 as int == dnum(h, max_k as int) * dnum(
                h,
                max_k as int,
            ) && best_s as int == svar(h, max_k as int),
            !found ==> max_k == 0,
        decreases 256 - k,
    {
        let ghost ki = k as int;
        let ghost nn = wsum(h, 255) as int;
        proof {
            lemma_wsum_mono(h, ki, 255);
            lemma_msum_le(h, -1, ki);
            lemma_entry_le_wsum(h, ki);
            lemma_mul_le(ki, 255, h[ki] as int, nn);
        }
        let hk = hist[k];
        let wk1 = wk + hk;
        let mk1 = mk + (k as u64) * hk;
        if 0 < wk1 && wk1 < n64 {
            proof {
                assert(valid_k(h, ki));
                lemma_msum_le(h, ki, 255);
                lemma_dnum_bound(
                    wsum(h, ki) as int,
                    msum(h, ki) as int,
                    nn,
                    msum(h, 255) as int,
                );
                lemma_svar_quarter(wsum(h, ki) as int, nn);
                lemma_msum_le(h, -1, 255);
                lemma_mul_le(nn, PIXEL_LIMIT as int, nn, PIXEL_LIMIT as int);
                lemma_mul_le(mt as int, 255 * nn, wk1 as int, nn);
                lemma_mul_le(mk1 as int, 255 * nn, n64 as int, nn);
                lemma_mul_le(255 * nn, 255 * (PIXEL_LIMIT as int), nn, PIXEL_LIMIT as int);
            }
            let a: u128 = (mt as u128) * (wk1 as u128);
            let b: u128 = (mk1 as u128) * (n64 as u128);
            let d: u128 = if a >= b {
                a - b
            } else {
                b - a
            };
            let s: u128 = (wk1 as u128) * ((n64 - wk1) as u128);
            proof {
                assert(s as int == svar(h, ki));
                if a >= b {
                    assert(d as int == dnum(h, ki));
                } else {
                    assert(d as int == -dnum(h, ki));
                    lemma_sq_abs(d as int, dnum(h, ki));
                }
                assert(d as int <= 255 * svar(h, ki));
                lemma_mul_le(d as int, u64::MAX as int, d as int, u64::MAX as int);
                lemma_svar_pos(h, ki);
            }
            let d2: u128 = d * d;
            let take = if !found {
                true
            } else {
                proof {
                    lemma_svar_pos(h, max_k as int);
                    lemma_svar_quarter(wsum(h, max_k as int) as int, nn);
                    lemma_frac_cmp(d2 as int, s as int, best_d2 as int, best_s as int);
                    vstd::arithmetic::div_mod::lemma_mod_bound(d2 as int, s as int);
                    vstd::arithmetic::div_mod::lemma_mod_bound(best_d2 as int, best_s as int);
                    lemma_mul_le(
                        (d2 as int) % (s as int),
                        svar(h, ki),
                        best_s as int,
                        svar(h, max_k as int),
                    );
                    lemma_mul_le(
                        (best_d2 as int) % (best_s as int),
                        svar(h, max_k as int),
                        s as int,
                        svar(h, ki),
                    );
                    lemma_mul_le(svar(h, ki), nn * nn, svar(h, max_k as int), nn * nn);
                    lemma_mul_le(
                        nn * nn,
                        (PIXEL_LIMIT as int) * (PIXEL_LIMIT as int),
                        nn * nn,
                        (PIXEL_LIMIT as int) * (PIXEL_LIMIT as int),
                    );
                }
                let qc = d2 / s;
                let rc = d2 % s;
                let qb = best_d2 / best_s;
                let rb = best_d2 % best_s;
                qc > qb || (qc == qb && rc * best_s > rb * s)
            };
            proof {
                assert(take == (!found || var_gt(h, ki, max_k as int)));
                assert(has_valid(h, ki)) by {
                    assert(0 <= ki <= ki && valid_k(h, ki));
                }
            }
            if take {
                max_k = k;
                best_d2 = d2;
                best_s = s;
            }
            found = true;
        } else {
            proof {
                assert(!valid_k(h, ki));
                assert(has_valid(h, ki) == has_valid(h, ki - 1));
            }
        }
        wk = wk1;
        mk = mk1;
        k += 1;
    }
    proof {
        lemma_otsu_best_argmax(h, 255);
    }
    max_k as u8
}

/// One pixel after binarization at threshold `thr`: white if strictly
/// above the threshold, black otherwise.
pub open spec fn bin_px(p: u8, thr: u8) -> u8 {
    if p > thr {
        255
    } else {
        0
    }
}

/// A whole pixel sequence after binarization at threshold `thr`.
pub open spec fn binarized(s: Seq<u8>, thr: u8) -> Seq<u8> {
    Seq::new(s.len(), |i: int| bin_px(s[i], thr))
}

/// Rewrites every pixel to pure black or pure white: values strictly above
/// the threshold become 255, the rest become 0, in place.
pub fn threshold_gray(img: &mut Grid, thr: u8)
    requires
        old(img).wf(),
    ensures
        final(img).wf(),
        final(img).spec_width() == old(img).spec_width(),
        final(img).spec_height() == old(img).spec_height(),
        final(img)@ == binarized(old(img)@, thr),
{
    let n = img.data.len();
    let mut i: usize = 0;
    while i < n
        invariant
            n == img@.len(),
            i <= n,
            img.spec_width() == old(img).spec_width(),
            img.spec_height() == old(img).spec_height(),
            img@.len() == old(img)@.len(),
            forall|j: int| 0 <= j < i ==> img@[j] == bin_px(old(img)@[j], thr),
            forall|j: int| i <= j < n ==> img@[j] == old(img)@[j],
        decreases n - i,
    {
        if img.data[i] > thr {
            img.data.set(i, 255);
        } else {
            img.data.set(i, 0);
        }
        i += 1;
    }
    proof {
        assert(img@ =~= binarized(old(img)@, thr));
    }
}

/// Binarization is idempotent: a second pass with the same threshold
/// changes nothing.
pub proof fn lemma_binarize_idempotent(s: Seq<u8>, thr: u8)
    ensures
        binarized(binarized(s, thr), thr) == binarized(s, thr),
{
    assert(binarized(binarized(s, thr), thr) =~= binarized(s, thr));
}

/// Whether (x, y) lies strictly inside the border of a w-by-h grid.
pub open spec fn in_interior(w: int, h: int, x: int, y: int) -> bool {
    1 <= x <= w - 2 && 1 <= y <= h - 2
}

/// Whether the pixel at interior position (x, y) has at least one of its 8
/// neighbors holding the same value.
pub open spec fn has_match(s: Seq<u8>, w: int, x: int, y: int) -> bool {
    let p = s[y * w + x];
    ||| p == s[y * w + (x - 1)]
    ||| p == s[(y - 1) * w + x]
    ||| p == s[y * w + (x + 1)]
    ||| p == s[(y + 1) * w + x]
    ||| p == s[(y - 1) * w + (x - 1)]
    ||| p == s[(y - 1) * w + (x + 1)]
    ||| p == s[(y + 1) * w + (x - 1)]
    ||| p == s[(y + 1) * w + (x + 1)]
}

/// One visit of the filter at interior position (x, y): an isolated pixel
/// (no matching neighbor) is bitwise-complemented, any other left alone.
pub open spec fn isolate_step(s: Seq<u8>, w: int, x: int, y: int) -> Seq<u8> {
    if has_match(s, w, x, y) {
        s
    } else {
        s.update(y * w + x, !s[y * w + x])
    }
}

/// The traversal visits columns left to right and each column top to
/// bottom; visit number `m` lands on this column.
pub open spec fn visit_x(h: int, m: int) -> int {
    1 + m / (h - 2)
}

/// The row that visit number `m` lands on.
pub open spec fn visit_y(h: int, m: int) -> int {
    1 + m % (h - 2)
}

/// The grid after the first `n` visits of the filter, reading neighbors of
/// later visits from the already mutated grid (no snapshot is taken).
pub open spec fn filter_upto(s: Seq<u8>, w: int, h: int, n: int) -> Seq<u8>
    decreases n,
{
    if n <= 0 {
        s
    } else {
        isolate_step(filter_upto(s, w, h, n - 1), w, visit_x(h, n - 1), visit_y(h, n - 1))
    }
}

/// The grid after the whole isolated-pixel pass; grids too small to have
/// interior pixels are untouched.
pub open spec fn filtered(s: Seq<u8>, w: int, h: int) -> Seq<u8> {
    if 3 <= w && 3 <= h {
        filter_upto(s, w, h, (w - 2) * (h - 2))
    } else {
        s
    }
}

/// Row-major indexing is injective over the columns of one grid.
proof fn lemma_idx_inj(w: int, x1: int, y1: int, x2: int, y2: int)
    by (nonlinear_arith)
    requires
        0 <= x1 < w,
        0 <= x2 < w,
        y1 * w + x1 == y2 * w + x2,
    ensures
        x1 == x2 && y1 == y2,
{
}

/// Every visit number below the visit total lands on an interior position.
proof fn lemma_visit_interior(w: int, h: int, m: int)
    requires
        3 <= w,
        3 <= h,
        0 <= m < (w - 2) * (h - 2),
    ensures
        in_interior(w, h, visit_x(h, m), visit_y(h, m)),
{
    vstd::arithmetic::div_mod::lemma_mod_bound(m, h - 2);
    vstd::arithmetic::div_mod::lemma_fundamental_div_mod(m, h - 2);
    assert(0 <= m / (h - 2) <= w - 3) by (nonlinear_arith)
        requires
            3 <= h,
            0 <= m < (w - 2) * (h - 2),
            m == (h - 2) * (m / (h - 2)) + m % (h - 2),
            0 <= m % (h - 2) < h - 2,
    ;
}

/// The filter never changes the grid's length, and never touches a border
/// pixel.
proof fn lemma_filter_shape(s: Seq<u8>, w: int, h: int, n: int)
    requires
        3 <= w,
        3 <= h,
        s.len() == w * h,
        0 <= n <= (w - 2) * (h - 2),
    ensures
        filter_upto(s, w, h, n).len() == s.len(),
        forall|x: int, y: int|
            0 <= x < w && 0 <= y < h && !in_interior(w, h, x, y) ==> filter_upto(s, w, h, n)[y * w
                + x] == s[y * w + x],
    decreases n,
{
    if n > 0 {
        lemma_filter_shape(s, w, h, n - 1);
        let prev = filter_upto(s, w, h, n - 1);
        let vx = visit_x(h, n - 1);
        let vy = visit_y(h, n - 1);
        lemma_visit_interior(w, h, n - 1);
        lemma_rowmajor_bound(vx, vy, w, h);
        assert forall|x: int, y: int|
            0 <= x < w && 0 <= y < h && !in_interior(w, h, x, y) implies filter_upto(
            s,
            w,
            h,
            n,
        )[y * w + x] == s[y * w + x] by {
            lemma_rowmajor_bound(x, y, w, h);
            if y * w + x == vy * w + vx {
                lemma_idx_inj(w, x, y, vx, vy);
            }
        }
    }
}

/// A grid in which every interior pixel has a matching neighbor is a fixed
/// point of the isolated-pixel filter.
pub proof fn lemma_no_isolates_fixpoint(s: Seq<u8>, w: int, h: int)
    requires
        s.len() == w * h,
        forall|x: int, y: int| in_interior(w, h, x, y) ==> has_match(s, w, x, y),
    ensures
        filtered(s, w, h) == s,
{
    if 3 <= w && 3 <= h {
        lemma_fixpoint_upto(s, w, h, (w - 2) * (h - 2));
    }
}

proof fn lemma_fixpoint_upto(s: Seq<u8>, w: int, h: int, n: int)
    requires
        3 <= w,
        3 <= h,
        s.len() == w * h,
        0 <= n <= (w - 2) * (h - 2),
        forall|x: int, y: int| in_interior(w, h, x, y) ==> has_match(s, w, x, y),
    ensures
        filter_upto(s, w, h, n) == s,
    decreases n,
{
    if n > 0 {
        lemma_fixpoint_upto(s, w, h, n - 1);
        lemma_visit_interior(w, h, n - 1);
    }
}

/// Offsetting the row by one moves the row-major index by one grid width.
proof fn lemma_neighbor_idx(w: int, x: int, y: int)
    by (nonlinear_arith)
    ensures
        (y - 1) * w + x == y * w + x - w,
        (y + 1) * w + x == y * w + x + w,
{
}

/// Flips every isolated interior pixel, in place: a pixel none of whose 8
/// neighbors (read from the grid as already mutated by earlier visits)
/// holds its value is bitwise-complemented. Border pixels are never
/// examined or modified. The traversal is fixed: columns left to right,
/// each column top to bottom.
pub fn remove_isolates(img: &mut Grid)
    requires
        old(img).wf(),
        old(img).spec_width() >= 1,
        old(img).spec_height() >= 1,
    ensures
        final(img).wf(),
        final(img).spec_width() == old(img).spec_width(),
        final(img).spec_height() == old(img).spec_height(),
        final(img)@ == filtered(
            old(img)@,
            old(img).spec_width() as int,
            old(img).spec_height() as int,
        ),
        forall|x: int, y: int|
            0 <= x < old(img).spec_width() && 0 <= y < old(img).spec_height() && !in_interior(
                old(img).spec_width() as int,
                old(img).spec_height() as int,
                x,
                y,
            ) ==> final(img)@[y * old(img).spec_width() + x] == old(img)@[y * old(img).spec_width()
                + x],
{
    let w = img.width;
    let h = img.height;
    if w < 3 || h < 3 {
        return ;
    }
    let ghost s0 = img@;
    let ghost wi = w as int;
    let ghost hi = h as int;
    let total = img.data.len();
    let mut x: usize = 1;
    proof {
        assert(0 * (hi - 2) == 0) by (nonlinear_arith);
    }
    while x < w - 1
        invariant
            3 <= w,
            3 <= h,
            wi == w as int,
            hi == h as int,
            img.spec_width() == w,
            img.spec_height() == h,
            img.wf(),
            s0.len() == wi * hi,
            total == img@.len(),
            1 <= x <= w - 1,
            img@ == filter_upto(s0, wi, hi, (x - 1) * (hi - 2)),
        decreases w - x,
    {
        let mut y: usize = 1;
        proof {
            assert((x - 1) * (hi - 2) >= 0 && (x - 1) * (hi - 2) <= (wi - 2) * (hi - 2))
                by (nonlinear_arith)
                requires
                    3 <= wi,
                    3 <= hi,
                    1 <= x <= wi - 1,
            ;
        }
        while y < h - 1
            invariant
                3 <= w,
                3 <= h,
                wi == w as int,
                hi == h as int,
                img.spec_width() == w,
                img.spec_height() == h,
                img.wf(),
                s0.len() == wi * hi,
                total == img@.len(),
                1 <= x <= w - 2,
                1 <= y <= h - 1,
                img@ == filter_upto(s0, wi, hi, (x - 1) * (hi - 2) + (y - 1)),
            decreases h - y,
        {
            let ghost n = (x as int - 1) * (hi - 2) + (y as int - 1);
            proof {
                vstd::arithmetic::div_mod::lemma_fundamental_div_mod_converse(
                    n,
                    hi - 2,
                    x as int - 1,
                    y as int - 1,
                );
                lemma_rowmajor_bound(x as int, y as int, wi, hi);
                lemma_rowmajor_bound(x as int - 1, y as int - 1, wi, hi);
                lemma_rowmajor_bound(x as int + 1, y as int + 1, wi, hi);
                lemma_neighbor_idx(wi, x as int, y as int);
                assert(0 <= n && n + 1 <= (wi - 2) * (hi - 2)) by (nonlinear_arith)
                    requires
                        3 <= wi,
                        3 <= hi,
                        1 <= x <= wi - 2,
                        1 <= y <= hi - 2,
                        n == (x - 1) * (hi - 2) + (y - 1),
                ;
            }
            let i = y * w + x;
            let p = img.data[i];
            let m = p == img.data[i - 1] || p == img.data[i - w] || p == img.data[i + 1] || p
                == img.data[i + w] || p == img.data[i - w - 1] || p == img.data[i - w + 1] || p
                == img.data[i + w - 1] || p == img.data[i + w + 1];
            proof {
                assert(m == has_match(img@, wi, x as int, y as int));
            }
            if !m {
                img.data.set(i, !p);
            }
            proof {
                assert(img@ == filter_upto(s0, wi, hi, n + 1));
            }
            y += 1;
        }
        proof {
            assert((x as int) * (hi - 2) == (x as int - 1) * (hi - 2) + (hi - 2))
                by (nonlinear_arith);
        }
        x += 1;
    }
    proof {
        lemma_filter_shape(s0, wi, hi, (wi - 2) * (hi - 2));
    }
}

/// The whole pipeline short of the optional noise filter: selects Otsu's
/// threshold from the grid's histogram and binarizes the grid with it, in
/// place.
pub fn otsify_gray(img: &mut Grid)
    requires
        old(img).wf(),
        old(img)@.len() > 0,
        old(img)@.len() <= PIXEL_LIMIT,
    ensures
        final(img).wf(),
        final(img).spec_width() == old(img).spec_width(),
        final(img).spec_height() == old(img).spec_height(),
        0 <= otsu_threshold(old(img)@) < 256,
        final(img)@ == binarized(old(img)@, otsu_threshold(old(img)@) as u8),
{
    let max_k: u8 = get_otsu_max_k(img);
    threshold_gray(img, max_k);
}

proof fn lemma_count_le_uniform(s: Seq<u8>, c: u8, k: int)
    requires
        forall|i: int| 0 <= i < s.len() ==> s[i] == c,
    ensures
        count_le(s, k) == if c as int <= k {
            s.len()
        } else {
            0nat
        },
    decreases s.len(),
{
    if s.len() > 0 {
        lemma_count_le_uniform(s.drop_last(), c, k);
    }
}

/// A perfectly uniform image admits no valid split, so the selector's
/// degenerate fallback applies: Otsu's threshold is 0.
pub proof fn lemma_uniform_threshold_zero(s: Seq<u8>, c: u8)
    requires
        s.len() > 0,
        forall|i: int| 0 <= i < s.len() ==> s[i] == c,
    ensures
        !has_valid(hist_of(s), 255),
        otsu_threshold(s) == 0,
{
    let h = hist_of(s);
    assert forall|j: int| 0 <= j <= 255 implies !valid_k(h, j) by {
        lemma_wsum_count(s, j);
        lemma_count_le_uniform(s, c, j);
        lemma_wsum_count(s, 255);
        lemma_count_le_uniform(s, c, 255);
    }
    lemma_otsu_best_argmax(h, 255);
}

proof fn lemma_count_le_two_level(s: Seq<u8>, k: int)
    requires
        forall|i: int| 0 <= i < s.len() ==> (s[i] == 0 || s[i] == 255),
        0 <= k <= 254,
    ensures
        count_le(s, k) == count_px(s, 0),
    decreases s.len(),
{
    if s.len() > 0 {
        lemma_count_le_two_level(s.drop_last(), k);
    }
}

proof fn lemma_counts_partition(s: Seq<u8>)
    requires
        forall|i: int| 0 <= i < s.len() ==> (s[i] == 0 || s[i] == 255),
    ensures
        count_px(s, 0) + count_px(s, 255) == s.len(),
    decreases s.len(),
{
    if s.len() > 0 {
        lemma_counts_partition(s.drop_last());
    }
}

/// For a two-level image holding only the values 0 and 255, both present,
/// every valid split lies in [0, 254], at least one exists, and binarizing
/// at any of them — in particular at Otsu's threshold — reproduces the
/// image exactly.
pub proof fn lemma_two_level_roundtrip(s: Seq<u8>)
    requires
        forall|i: int| 0 <= i < s.len() ==> (s[i] == 0 || s[i] == 255),
        count_px(s, 0) > 0,
        count_px(s, 255) > 0,
    ensures
        has_valid(hist_of(s), 255),
        forall|k: int| 0 <= k < 256 && valid_k(hist_of(s), k) ==> k <= 254,
        forall|k: int| 0 <= k <= 254 && valid_k(hist_of(s), k) ==> binarized(s, k as u8) == s,
        valid_k(hist_of(s), otsu_threshold(s)),
        0 <= otsu_threshold(s) <= 254,
        binarized(s, otsu_threshold(s) as u8) == s,
{
    let h = hist_of(s);
    lemma_wsum_count(s, 255);
    lemma_count_le_all(s);
    lemma_counts_partition(s);
    assert forall|k: int| 0 <= k <= 254 implies valid_k(h, k) by {
        lemma_wsum_count(s, k);
        lemma_count_le_two_level(s, k);
    }
    assert(valid_k(h, 0));
    assert(has_valid(h, 255)) by {
        assert(0 <= 0 <= 255 && valid_k(h, 0));
    }
    assert forall|k: int| 0 <= k < 256 && valid_k(h, k) implies k <= 254 by {
        if k == 255 {
            lemma_wsum_count(s, 255);
        }
    }
    assert forall|k: int| 0 <= k <= 254 && valid_k(h, k) implies binarized(s, k as u8) == s by {
        assert(binarized(s, k as u8) =~= s);
    }
    lemma_otsu_best_argmax(h, 255);
}

/// Whether the pixel at interior position (x, y) has a matching 8-neighbor
/// at some position other than (ax, ay).
pub open spec fn has_match_avoiding(s: Seq<u8>, w: int, x: int, y: int, ax: int, ay: int) -> bool {
    let p = s[y * w + x];
    ||| (!(x - 1 == ax && y == ay) && p == s[y * w + (x - 1)])
    ||| (!(x == ax && y - 1 == ay) && p == s[(y - 1) * w + x])
    ||| (!(x + 1 == ax && y == ay) && p == s[y * w + (x + 1)])
    ||| (!(x == ax && y + 1 == ay) && p == s[(y + 1) * w + x])
    ||| (!(x - 1 == ax && y - 1 == ay) && p == s[(y - 1) * w + (x - 1)])
    ||| (!(x + 1 == ax && y - 1 == ay) && p == s[(y - 1) * w + (x + 1)])
    ||| (!(x - 1 == ax && y + 1 == ay) && p == s[(y + 1) * w + (x - 1)])
    ||| (!(x + 1 == ax && y + 1 == ay) && p == s[(y + 1) * w + (x + 1)])
}

/// If exactly one interior pixel is isolated — every other interior pixel
/// has a matching neighbor somewhere else than at the isolated position —
/// the filter pass inverts the isolated pixel and changes nothing else.
pub proof fn lemma_single_isolate(s: Seq<u8>, w: int, h: int, x0: int, y0: int)
    requires
        3 <= w,
        3 <= h,
        s.len() == w * h,
        in_interior(w, h, x0, y0),
        !has_match(s, w, x0, y0),
        forall|x: int, y: int|
            in_interior(w, h, x, y) && !(x == x0 && y == y0) ==> has_match_avoiding(
                s,
                w,
                x,
                y,
                x0,
                y0,
            ),
    ensures
        filtered(s, w, h) == s.update(y0 * w + x0, !s[y0 * w + x0]),
{
    lemma_single_isolate_upto(s, w, h, x0, y0, (w - 2) * (h - 2));
    assert((x0 - 1) * (h - 2) + (y0 - 1) < (w - 2) * (h - 2)) by (nonlinear_arith)
        requires
            3 <= w,
            3 <= h,
            1 <= x0 <= w - 2,
            1 <= y0 <= h - 2,
    ;
}

proof fn lemma_single_isolate_upto(s: Seq<u8>, w: int, h: int, x0: int, y0: int, n: int)
    requires
        3 <= w,
        3 <= h,
        s.len() == w * h,
        in_interior(w, h, x0, y0),
        !has_match(s, w, x0, y0),
        forall|x: int, y: int|
            in_interior(w, h, x, y) && !(x == x0 && y == y0) ==> has_match_avoiding(
                s,
                w,
                x,
                y,
                x0,
                y0,
            ),
        0 <= n <= (w - 2) * (h - 2),
    ensures
        n <= (x0 - 1) * (h - 2) + (y0 - 1) ==> filter_upto(s, w, h, n) == s,
        n > (x0 - 1) * (h - 2) + (y0 - 1) ==> filter_upto(s, w, h, n) == s.update(
            y0 * w + x0,
            !s[y0 * w + x0],
        ),
    decreases n,
{
    let n0 = (x0 - 1) * (h - 2) + (y0 - 1);
    let i0 = y0 * w + x0;
    let sr = s.update(i0, !s[i0]);
    lemma_rowmajor_bound(x0, y0, w, h);
    if n > 0 {
        lemma_single_isolate_upto(s, w, h, x0, y0, n - 1);
        let m = n - 1;
        let vx = visit_x(h, m);
        let vy = visit_y(h, m);
        lemma_visit_interior(w, h, m);
        lemma_rowmajor_bound(vx, vy, w, h);
        vstd::arithmetic::div_mod::lemma_fundamental_div_mod_converse(n0, h - 2, x0 - 1, y0 - 1);
        vstd::arithmetic::div_mod::lemma_fundamental_div_mod(m, h - 2);
        // visits and interior positions correspond one to one
        assert((vx == x0 && vy == y0) <==> m == n0) by {
            if vx == x0 && vy == y0 {
                assert(m == (h - 2) * (m / (h - 2)) + m % (h - 2));
                assert(m == (x0 - 1) * (h - 2) + (y0 - 1)) by (nonlinear_arith)
                    requires
                        m == (h - 2) * (x0 - 1) + (y0 - 1),
                ;
            }
        }
        // positions other than (x0, y0) hold the same pixel in s and sr
        assert forall|a: int, b: int|
            #![trigger sr[b * w + a]]
            0 <= a < w && 0 <= b < h && !(a == x0 && b == y0) implies sr[b * w + a] == s[b * w
            + a] by {
            lemma_rowmajor_bound(a, b, w, h);
            if b * w + a == i0 {
                lemma_idx_inj(w, a, b, x0, y0);
            }
        }
        if m < n0 {
            assert(filter_upto(s, w, h, m) == s);
            assert(has_match(s, w, vx, vy));
        } else if m == n0 {
            assert(filter_upto(s, w, h, m) == s);
            assert(vx == x0 && vy == y0);
            assert(filter_upto(s, w, h, n) == sr);
        } else {
            assert(filter_upto(s, w, h, m) == sr);
            assert(sr[vy * w + vx] == s[vy * w + vx]);
            assert(has_match_avoiding(s, w, vx, vy, x0, y0));
            assert(has_match(sr, w, vx, vy));
            assert(filter_upto(s, w, h, n) == sr);
        }
    }
}

} // verus!

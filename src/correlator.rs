use vstd::prelude::*;

use crate::isqrt::{isqrt_u128, lemma_root_of_square, root};
use crate::stats::{
    bounded_by, co_spread, lemma_products_push, lemma_spread_nonneg, lemma_squares_bounded,
    lemma_sum_bounds, lemma_sum_push, lemma_sums_bounds, products, spread, sum, sum_prod, sum_sq,
};

verus! {

/// Fixed-point one: scores are given in millionths.
pub const PPM_ONE: u32 = 1_000_000;

/// Longest series that the correlator accepts; the sums it keeps then fit in 128 bits.
pub const MAX_SERIES_LEN: usize = 65536;

/// Similarity and confidence of two metric series, both in millionths.
#[derive(Clone, Copy, Debug, PartialEq, Eq)]
pub struct CorrelationResult {
    /// Pearson correlation coefficient, in `[-PPM_ONE, PPM_ONE]`.
    pub similarity_ppm: i32,
    /// How far the coefficient can be trusted, in `[0, PPM_ONE]`.
    pub confidence_ppm: u32,
}

#[derive(Clone, Copy, Debug, PartialEq, Eq)]
pub enum CorrelateError {
    /// The two series differ in length, or are empty.
    LengthMismatch,
}

/// A series of metric readings as integers.
pub open spec fn series(a: Seq<u16>) -> Seq<int> {
    Seq::new(a.len(), |i: int| a[i] as int)
}

/// `10^12`: the square of `PPM_ONE`.
pub open spec fn ppm_sq() -> int {
    1_000_000_000_000
}

/// Pearson's coefficient `cov / sqrt(vx * vy)` in millionths, rounded toward zero: its magnitude
/// is the largest `q <= PPM_ONE` with `q^2 * vx * vy <= 10^12 * cov^2`. Zero where either series
/// is constant.
pub open spec fn similarity_of(cov: int, vx: int, vy: int) -> int {
    if vx <= 0 || vy <= 0 {
        0
    } else {
        let x = ppm_sq() * (cov * cov) / (vx * vy);
        let mag = root(if x <= ppm_sq() { x } else { ppm_sq() });
        if cov >= 0 {
            mag
        } else {
            -mag
        }
    }
}

/// Confidence in the coefficient, in millionths: none where it is undefined, full where the two
/// series are exactly linearly related, and otherwise `1 - 1/(n - 1)`, growing with the number of
/// points.
pub open spec fn confidence_of(n: int, cov: int, vx: int, vy: int) -> int {
    if n < 2 || vx <= 0 || vy <= 0 {
        0
    } else if cov * cov == vx * vy {
        PPM_ONE as int
    } else {
        PPM_ONE * (n - 2) / (n - 1)
    }
}

pub open spec fn similarity(a: Seq<u16>, b: Seq<u16>) -> int {
    similarity_of(co_spread(series(a), series(b)), spread(series(a)), spread(series(b)))
}

pub open spec fn confidence(a: Seq<u16>, b: Seq<u16>) -> int {
    confidence_of(
        a.len() as int,
        co_spread(series(a), series(b)),
        spread(series(a)),
        spread(series(b)),
    )
}

/// The inputs on which `correlate` fails.
pub open spec fn mismatched(a: Seq<u16>, b: Seq<u16>) -> bool {
    a.len() != b.len() || a.len() == 0
}

proof fn lemma_series_prefix(a: Seq<u16>, i: int)
    requires
        0 <= i < a.len(),
    ensures
        series(a).subrange(0, i + 1) =~= series(a).subrange(0, i).push(a[i] as int),
        bounded_by(series(a).subrange(0, i + 1), 65535),
{
}

/// Doubles `r` modulo `p`: `2 * r == r2 + (p if carried)`.
fn double_mod(r: u128, p: u128) -> (res: (bool, u128))
    requires
        r < p,
    ensures
        2 * r == res.1 + (if res.0 { p as int } else { 0 }),
        res.1 < p,
{
    if r >= p - r {
        (true, r - (p - r))
    } else {
        (false, r + r)
    }
}

/// Adds `x` and `y` modulo `p`: `x + y == r2 + (p if carried)`.
fn add_mod(x: u128, y: u128, p: u128) -> (res: (bool, u128))
    requires
        x < p,
        y < p,
    ensures
        x + y == res.1 + (if res.0 { p as int } else { 0 }),
        res.1 < p,
{
    if x >= p - y {
        (true, x - (p - y))
    } else {
        (false, x + y)
    }
}

/// One step of long division in base ten: `10 * r == d * p + r2`.
fn times_ten_mod(r: u128, p: u128) -> (res: (u128, u128))
    requires
        r < p,
    ensures
        10 * r == res.0 * p + res.1,
        res.0 <= 9,
        res.1 < p,
{
    let (b1, r2) = double_mod(r, p);
    let (b2, r4) = double_mod(r2, p);
    let (b3, r8) = double_mod(r4, p);
    let (b4, r10) = add_mod(r8, r2, p);
    let i1: u128 = if b1 { 1 } else { 0 };
    let i2: u128 = if b2 { 1 } else { 0 };
    let i3: u128 = if b3 { 1 } else { 0 };
    let i4: u128 = if b4 { 1 } else { 0 };
    let d: u128 = 5 * i1 + 2 * i2 + i3 + i4;
    assert(d * p == 5 * (i1 * p) + 2 * (i2 * p) + i3 * p + i4 * p) by (nonlinear_arith)
        requires
            d == 5 * i1 + 2 * i2 + i3 + i4,
    ;
    if b1 {
        assert(i1 * p == p) by (nonlinear_arith)
            requires
                i1 == 1,
        ;
    } else {
        assert(i1 * p == 0) by (nonlinear_arith)
            requires
                i1 == 0,
        ;
    }
    if b2 {
        assert(i2 * p == p) by (nonlinear_arith)
            requires
                i2 == 1,
        ;
    } else {
        assert(i2 * p == 0) by (nonlinear_arith)
            requires
                i2 == 0,
        ;
    }
    if b3 {
        assert(i3 * p == p) by (nonlinear_arith)
            requires
                i3 == 1,
        ;
    } else {
        assert(i3 * p == 0) by (nonlinear_arith)
            requires
                i3 == 0,
        ;
    }
    if b4 {
        assert(i4 * p == p) by (nonlinear_arith)
            requires
                i4 == 1,
        ;
    } else {
        assert(i4 * p == 0) by (nonlinear_arith)
            requires
                i4 == 0,
        ;
    }
    (d, r10)
}

/// `10^i`.
pub open spec fn pow10(i: nat) -> int
    decreases i,
{
    if i == 0 {
        1
    } else {
        10 * pow10((i - 1) as nat)
    }
}

proof fn lemma_pow10_mono(i: nat, j: nat)
    requires
        i <= j,
    ensures
        1 <= pow10(i) <= pow10(j),
    decreases j,
{
    if j > i {
        lemma_pow10_mono(i, (j - 1) as nat);
    } else if i > 0 {
        lemma_pow10_mono((i - 1) as nat, (i - 1) as nat);
    }
}

proof fn lemma_pow10_bound(i: nat)
    requires
        i < 12,
    ensures
        1 <= pow10(i) <= 100_000_000_000,
{
    lemma_pow10_mono(i, 11);
    reveal_with_fuel(pow10, 12);
}

/// `floor(10^12 * c / p)`, for `c < p`, by twelve steps of long division.
fn scaled_ratio(c: u128, p: u128) -> (q: u128)
    requires
        c < p,
    ensures
        q == ppm_sq() * c / (p as int),
        q < ppm_sq(),
{
    let mut acc: u64 = 0;
    let mut r: u128 = c;
    let mut scale: u64 = 1;
    let mut i: usize = 0;
    while i < 12
        invariant
            i <= 12,
            scale == pow10(i as nat),
            scale >= 1,
            c < p,
            scale * c == acc * p + r,
            acc < scale,
            r < p,
        decreases 12 - i,
    {
        let (d, r2) = times_ten_mod(r, p);
        proof {
            lemma_pow10_bound(i as nat);
            assert(10 * scale * c == (10 * acc + d) * p + r2) by (nonlinear_arith)
                requires
                    scale * c == acc * p + r,
                    10 * r == d * p + r2,
            ;
            assert(10 * acc + d < 10 * scale) by (nonlinear_arith)
                requires
                    scale * c == acc * p + r,
                    10 * r == d * p + r2,
                    c < p,
                    r2 >= 0,
                    acc >= 0,
                    d >= 0,
                    scale >= 1,
                    10 * scale * c == (10 * acc + d) * p + r2,
            ;
        }
        acc = 10 * acc + d as u64;
        r = r2;
        scale = 10 * scale;
        i = i + 1;
    }
    proof {
        reveal_with_fuel(pow10, 13);
        vstd::arithmetic::div_mod::lemma_fundamental_div_mod_converse(
            ppm_sq() * c,
            p as int,
            acc as int,
            r as int,
        );
    }
    acc as u128
}

proof fn lemma_ratio_at_least_one(c: int, p: int)
    requires
        c >= p > 0,
    ensures
        ppm_sq() * c / p >= ppm_sq(),
{
    let x = ppm_sq() * c / p;
    vstd::arithmetic::div_mod::lemma_fundamental_div_mod(ppm_sq() * c, p);
    let m = (ppm_sq() * c) % p;
    assert(x >= ppm_sq()) by (nonlinear_arith)
        requires
            ppm_sq() * c == p * x + m,
            0 <= m < p,
            c >= p,
            p > 0,
    ;
}

/// Computes the similarity of two equal-length series and the confidence in it.
pub fn correlate(a: &[u16], b: &[u16]) -> (r: Result<CorrelationResult, CorrelateError>)
    requires
        a@.len() <= MAX_SERIES_LEN,
        b@.len() <= MAX_SERIES_LEN,
    ensures
        r is Err <==> mismatched(a@, b@),
        r matches Ok(c) ==> c.similarity_ppm as int == similarity(a@, b@)
            && c.confidence_ppm as int == confidence(a@, b@),
        r matches Ok(c) ==> -PPM_ONE <= c.similarity_ppm <= PPM_ONE && c.confidence_ppm <= PPM_ONE,
{
    if a.len() != b.len() || a.len() == 0 {
        return Err(CorrelateError::LengthMismatch);
    }
    let ghost x = series(a@);
    let ghost y = series(b@);
    let n: usize = a.len();
    let mut sx: u64 = 0;
    let mut sy: u64 = 0;
    let mut sxx: u64 = 0;
    let mut syy: u64 = 0;
    let mut sxy: u64 = 0;
    let mut i: usize = 0;
    assert(x.subrange(0, 0) =~= Seq::<int>::empty());
    assert(y.subrange(0, 0) =~= Seq::<int>::empty());
    while i < n
        invariant
            n == a@.len() == b@.len() <= MAX_SERIES_LEN,
            x == series(a@),
            y == series(b@),
            i <= n,
            sx == sum(x.subrange(0, i as int)),
            sy == sum(y.subrange(0, i as int)),
            sxx == sum_sq(x.subrange(0, i as int)),
            syy == sum_sq(y.subrange(0, i as int)),
            sxy == sum_prod(x.subrange(0, i as int), y.subrange(0, i as int)),
        decreases n - i,
    {
        let ai: u64 = a[i] as u64;
        let bi: u64 = b[i] as u64;
        proof {
            let xs = x.subrange(0, i as int);
            let ys = y.subrange(0, i as int);
            lemma_series_prefix(a@, i as int);
            lemma_series_prefix(b@, i as int);
            lemma_sum_push(xs, ai as int);
            lemma_sum_push(ys, bi as int);
            lemma_products_push(xs, xs, ai as int, ai as int);
            lemma_products_push(ys, ys, bi as int, bi as int);
            lemma_products_push(xs, ys, ai as int, bi as int);
            lemma_sum_push(products(xs, xs), ai * ai);
            lemma_sum_push(products(ys, ys), bi * bi);
            lemma_sum_push(products(xs, ys), ai * bi);
            let xs1 = x.subrange(0, i + 1);
            let ys1 = y.subrange(0, i + 1);
            lemma_sums_bounds(xs1, 65535);
            lemma_sums_bounds(ys1, 65535);
            lemma_squares_bounded(xs1, ys1, 65535);
            lemma_sum_bounds(products(xs1, ys1), 65535int * 65535);
            assert((i + 1) * (65535 * 65535) <= 65536 * (65535 * 65535)) by (nonlinear_arith)
                requires
                    i + 1 <= 65536,
            ;
            assert((i + 1) * 65535 <= 65536 * 65535) by (nonlinear_arith)
                requires
                    i + 1 <= 65536,
            ;
        }
        sx = sx + ai;
        sy = sy + bi;
        sxx = sxx + ai * ai;
        syy = syy + bi * bi;
        sxy = sxy + ai * bi;
        i = i + 1;
    }
    assert(x.subrange(0, n as int) =~= x);
    assert(y.subrange(0, n as int) =~= y);
    proof {
        lemma_sums_bounds(x, 65535);
        lemma_sums_bounds(y, 65535);
        lemma_squares_bounded(x, y, 65535);
        lemma_sum_bounds(products(x, y), 65535int * 65535);
        lemma_spread_nonneg(x);
        lemma_spread_nonneg(y);
        assert(n * (n * (65535 * 65535)) < 0x1_0000_0000_0000_0000int) by (nonlinear_arith)
            requires
                n <= 65536,
        ;
        assert(n * sxx <= n * (n * (65535 * 65535))) by (nonlinear_arith)
            requires
                sxx <= n * (65535 * 65535),
        ;
        assert(n * syy <= n * (n * (65535 * 65535))) by (nonlinear_arith)
            requires
                syy <= n * (65535 * 65535),
        ;
        assert(n * sxy <= n * (n * (65535 * 65535))) by (nonlinear_arith)
            requires
                sxy <= n * (65535 * 65535),
        ;
        assert(sx * sy <= n * (n * (65535 * 65535))) by (nonlinear_arith)
            requires
                sx <= n * 65535,
                sy <= n * 65535,
                0 <= sx,
                0 <= sy,
        ;
        assert(sx * sx <= n * sxx);
        assert(sy * sy <= n * syy);
    }
    let nn: u128 = n as u128;
    let vx: u128 = nn * (sxx as u128) - (sx as u128) * (sx as u128);
    let vy: u128 = nn * (syy as u128) - (sy as u128) * (sy as u128);
    let cov: i128 = (nn * (sxy as u128)) as i128 - ((sx as u128) * (sy as u128)) as i128;
    assert(vx == spread(x));
    assert(vy == spread(y));
    assert(cov == co_spread(x, y));
    if vx == 0 || vy == 0 {
        return Ok(CorrelationResult { similarity_ppm: 0, confidence_ppm: 0 });
    }
    let abs_cov: u128 = if cov >= 0 { cov as u128 } else { (-cov) as u128 };
    assert(vx * vy < 0x1_0000_0000_0000_0000_0000_0000_0000_0000int) by (nonlinear_arith)
        requires
            0 < vx < 0x1_0000_0000_0000_0000int,
            0 < vy < 0x1_0000_0000_0000_0000int,
    ;
    let prod: u128 = vx * vy;
    assert(abs_cov * abs_cov == cov * cov) by (nonlinear_arith)
        requires
            abs_cov == cov || abs_cov == -cov,
    ;
    assert(prod >= 1) by (nonlinear_arith)
        requires
            vx >= 1,
            vy >= 1,
            prod == vx * vy,
    ;
    assert(abs_cov < 0x1_0000_0000_0000_0000int);
    assert(abs_cov * (PPM_ONE as int) < 0x1_0000_0000_0000_0000_0000_0000int) by (nonlinear_arith)
        requires
            abs_cov < 0x1_0000_0000_0000_0000int,
    ;
    assert(abs_cov * abs_cov < 0x1_0000_0000_0000_0000_0000_0000_0000_0000int) by (nonlinear_arith)
        requires
            abs_cov < 0x1_0000_0000_0000_0000int,
    ;
    let cov_sq: u128 = abs_cov * abs_cov;
    let mag: u128 = if cov_sq >= prod {
        proof {
            lemma_ratio_at_least_one(cov_sq as int, prod as int);
            lemma_root_of_square(PPM_ONE as int);
        }
        PPM_ONE as u128
    } else {
        let ratio = scaled_ratio(cov_sq, prod);
        let m = isqrt_u128(ratio);
        assert(m < PPM_ONE) by (nonlinear_arith)
            requires
                m * m <= ratio,
                ratio < 1_000_000_000_000,
                m >= 0,
        ;
        m
    };
    let similarity_ppm: i32 = if cov >= 0 { mag as i32 } else { -(mag as i32) };
    let confidence_ppm: u32 = if n < 2 {
        0
    } else if abs_cov * abs_cov == prod {
        PPM_ONE
    } else {
        assert((PPM_ONE as int) * (n - 2) < 0x1_0000_0000_0000_0000int) by (nonlinear_arith)
            requires
                n <= 65536,
        ;
        assert((PPM_ONE as int) * (n - 2) / (n - 1) <= PPM_ONE) by (nonlinear_arith)
            requires
                n >= 2,
        ;
        ((PPM_ONE as u64) * ((n - 2) as u64) / ((n - 1) as u64)) as u32
    };
    Ok(CorrelationResult { similarity_ppm, confidence_ppm })
}

/// Correlation is symmetric: swapping the two series changes neither whether they are accepted,
/// nor the similarity, nor the confidence.
pub proof fn lemma_correlate_symmetric(a: Seq<u16>, b: Seq<u16>)
    ensures
        mismatched(a, b) == mismatched(b, a),
        !mismatched(a, b) ==> similarity(a, b) == similarity(b, a) && confidence(a, b)
            == confidence(b, a),
{
    let x = series(a);
    let y = series(b);
    assert(products(x, y) =~= products(y, x));
    assert(sum(x) * sum(y) == sum(y) * sum(x)) by (nonlinear_arith);
    assert(spread(x) * spread(y) == spread(y) * spread(x)) by (nonlinear_arith);
}

/// A series that is not constant, taken with itself, has similarity one and full confidence.
pub proof fn lemma_self_correlation(a: Seq<u16>)
    requires
        a.len() >= 2,
        exists|i: int, j: int| 0 <= i < a.len() && 0 <= j < a.len() && a[i] != a[j],
    ensures
        similarity(a, a) == PPM_ONE,
        confidence(a, a) == PPM_ONE,
{
    let x = series(a);
    let (i, j) = choose|i: int, j: int| 0 <= i < a.len() && 0 <= j < a.len() && a[i] != a[j];
    assert(x[i] != x[j]);
    lemma_spread_nonneg(x);
    let v = spread(x);
    assert(co_spread(x, x) == v);
    lemma_root_of_square(PPM_ONE as int);
    assert(ppm_sq() * (v * v) / (v * v) == ppm_sq()) by (nonlinear_arith)
        requires
            v > 0,
    ;
}

/// Aggregate scores over a set of pairwise correlations.
#[derive(Clone, Copy, Debug, PartialEq, Eq)]
pub struct CorrelationSummary {
    /// Number of pairs whose `|similarity|` reaches the strength threshold.
    pub similarity_matches: u64,
    /// Mean `|similarity|` over all pairs, in millionths, rounded down.
    pub pattern_strength_ppm: u32,
    /// Share of the pairs that match, in millionths, rounded down.
    pub network_density_ppm: u32,
}

pub open spec fn abs_similarity(r: CorrelationResult) -> int {
    if r.similarity_ppm >= 0 {
        r.similarity_ppm as int
    } else {
        -(r.similarity_ppm as int)
    }
}

/// How many of `rs` reach `|similarity| >= strong`.
pub open spec fn count_strong(rs: Seq<CorrelationResult>, strong: int) -> int
    decreases rs.len(),
{
    if rs.len() == 0 {
        0
    } else {
        count_strong(rs.drop_last(), strong) + if abs_similarity(rs.last()) >= strong {
            1int
        } else {
            0
        }
    }
}

/// The sum of `|similarity|` over `rs`.
pub open spec fn sum_abs_similarity(rs: Seq<CorrelationResult>) -> int
    decreases rs.len(),
{
    if rs.len() == 0 {
        0
    } else {
        sum_abs_similarity(rs.drop_last()) + abs_similarity(rs.last())
    }
}

/// Summarises pairwise results whose similarities lie in `[-PPM_ONE, PPM_ONE]`: the pairs at
/// least `strong_ppm` similar, the mean strength, and the density of matches. All zero for no
/// pairs.
pub fn summarize(results: &[CorrelationResult], strong_ppm: u32) -> (s: CorrelationSummary)
    requires
        forall|i: int| 0 <= i < results@.len() ==> -PPM_ONE <= #[trigger] results@[i].similarity_ppm <= PPM_ONE,
    ensures
        s.similarity_matches == count_strong(results@, strong_ppm as int),
        results@.len() == 0 ==> s.pattern_strength_ppm == 0 && s.network_density_ppm == 0,
        results@.len() > 0 ==> s.pattern_strength_ppm == sum_abs_similarity(results@) / results@.len() as int,
        results@.len() > 0 ==> s.network_density_ppm == count_strong(results@, strong_ppm as int) * PPM_ONE / results@.len() as int,
{
    let n: usize = results.len();
    let mut matches: u64 = 0;
    let mut total: u128 = 0;
    let mut i: usize = 0;
    while i < n
        invariant
            n == results@.len(),
            i <= n,
            forall|j: int| 0 <= j < results@.len() ==> -PPM_ONE <= #[trigger] results@[j].similarity_ppm <= PPM_ONE,
            matches == count_strong(results@.subrange(0, i as int), strong_ppm as int),
            total == sum_abs_similarity(results@.subrange(0, i as int)),
            matches <= i,
            total <= i * PPM_ONE,
        decreases n - i,
    {
        let r = results[i];
        let a: u64 = if r.similarity_ppm >= 0 { r.similarity_ppm as u64 } else { (-(r.similarity_ppm as i64)) as u64 };
        assert(results@.subrange(0, i + 1).drop_last() =~= results@.subrange(0, i as int));
        assert(a <= PPM_ONE);
        assert(i * PPM_ONE + a <= (i + 1) * PPM_ONE) by (nonlinear_arith)
            requires
                a <= PPM_ONE,
        ;
        assert((i + 1) * PPM_ONE <= 0x1_0000_0000_0000_0000 * PPM_ONE) by (nonlinear_arith)
            requires
                i < 0x1_0000_0000_0000_0000,
        ;
        if a >= strong_ppm as u64 {
            matches = matches + 1;
        }
        total = total + a as u128;
        i = i + 1;
    }
    assert(results@.subrange(0, n as int) =~= results@);
    if n == 0 {
        return CorrelationSummary { similarity_matches: 0, pattern_strength_ppm: 0, network_density_ppm: 0 };
    }
    assert(total / (n as u128) <= PPM_ONE) by (nonlinear_arith)
        requires
            total <= n * PPM_ONE,
            n > 0,
    ;
    assert(matches * PPM_ONE <= n * PPM_ONE) by (nonlinear_arith)
        requires
            matches <= n,
    ;
    assert((matches * PPM_ONE) / (n as int) <= PPM_ONE) by (nonlinear_arith)
        requires
            matches <= n,
            n > 0,
    ;
    CorrelationSummary {
        similarity_matches: matches,
        pattern_strength_ppm: (total / (n as u128)) as u32,
        network_density_ppm: ((matches as u128) * (PPM_ONE as u128) / (n as u128)) as u32,
    }
}

} // verus!

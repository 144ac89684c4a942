use vstd::prelude::*;

verus! {

/// Sum of a sequence of integers.
pub open spec fn sum(s: Seq<int>) -> int
    decreases s.len(),
{
    if s.len() == 0 {
        0
    } else {
        sum(s.drop_last()) + s.last()
    }
}

/// Element-wise product of two sequences, truncated to the shorter one.
pub open spec fn products(a: Seq<int>, b: Seq<int>) -> Seq<int> {
    Seq::new(if a.len() <= b.len() { a.len() } else { b.len() }, |i: int| a[i] * b[i])
}

/// Sum of squares.
pub open spec fn sum_sq(s: Seq<int>) -> int {
    sum(products(s, s))
}

/// Sum of pairwise products.
pub open spec fn sum_prod(a: Seq<int>, b: Seq<int>) -> int {
    sum(products(a, b))
}

/// `n * sum(x^2) - sum(x)^2`: the variance of `s` scaled by the square of its length.
pub open spec fn spread(s: Seq<int>) -> int {
    s.len() * sum_sq(s) - sum(s) * sum(s)
}

/// `n * sum(x*y) - sum(x) * sum(y)`: the covariance scaled by the square of the length.
pub open spec fn co_spread(a: Seq<int>, b: Seq<int>) -> int {
    a.len() * sum_prod(a, b) - sum(a) * sum(b)
}

/// Every element lies in `[0, b]`.
pub open spec fn bounded_by(s: Seq<int>, b: int) -> bool {
    forall|i: int| 0 <= i < s.len() ==> 0 <= #[trigger] s[i] <= b
}

pub proof fn lemma_sum_push(s: Seq<int>, x: int)
    ensures
        sum(s.push(x)) == sum(s) + x,
{
    assert(s.push(x).drop_last() =~= s);
}

pub proof fn lemma_sum_drop_first(s: Seq<int>)
    requires
        s.len() > 0,
    ensures
        sum(s) == s[0] + sum(s.drop_first()),
    decreases s.len(),
{
    if s.len() > 1 {
        lemma_sum_drop_first(s.drop_last());
        assert(s.drop_first().drop_last() =~= s.drop_last().drop_first());
    } else {
        assert(s.drop_last() =~= Seq::<int>::empty());
        assert(s.drop_first() =~= Seq::<int>::empty());
    }
}

pub proof fn lemma_products_push(a: Seq<int>, b: Seq<int>, x: int, y: int)
    requires
        a.len() == b.len(),
    ensures
        products(a.push(x), b.push(y)) =~= products(a, b).push(x * y),
{
}

pub proof fn lemma_products_drop_first(a: Seq<int>, b: Seq<int>)
    requires
        a.len() == b.len(),
        a.len() > 0,
    ensures
        products(a.drop_first(), b.drop_first()) =~= products(a, b).drop_first(),
{
}

pub proof fn lemma_sum_bounds(s: Seq<int>, b: int)
    requires
        bounded_by(s, b),
    ensures
        0 <= sum(s) <= s.len() * b,
    decreases s.len(),
{
    if s.len() > 0 {
        lemma_sum_bounds(s.drop_last(), b);
        assert(s.len() * b == (s.len() - 1) * b + b) by (nonlinear_arith);
    }
}

pub proof fn lemma_squares_bounded(a: Seq<int>, b: Seq<int>, bound: int)
    requires
        a.len() == b.len(),
        bounded_by(a, bound),
        bounded_by(b, bound),
    ensures
        bounded_by(products(a, b), bound * bound),
{
    assert forall|i: int| 0 <= i < a.len() implies 0 <= #[trigger] products(a, b)[i] <= bound
        * bound by {
        let x = a[i];
        let y = b[i];
        assert(0 <= x * y <= bound * bound) by (nonlinear_arith)
            requires
                0 <= x <= bound,
                0 <= y <= bound,
        ;
    }
}

/// Bounds on the running sums of a sequence whose elements lie in `[0, b]`.
pub proof fn lemma_sums_bounds(s: Seq<int>, b: int)
    requires
        bounded_by(s, b),
    ensures
        0 <= sum(s) <= s.len() * b,
        0 <= sum_sq(s) <= s.len() * (b * b),
{
    lemma_sum_bounds(s, b);
    lemma_squares_bounded(s, s, b);
    lemma_sum_bounds(products(s, s), b * b);
}

/// The sequence `k * x - c` for each element `x` of `s`.
pub open spec fn affine(s: Seq<int>, k: int, c: int) -> Seq<int> {
    Seq::new(s.len(), |i: int| k * s[i] - c)
}

proof fn lemma_sum_nonneg(s: Seq<int>)
    requires
        forall|i: int| 0 <= i < s.len() ==> 0 <= #[trigger] s[i],
    ensures
        0 <= sum(s),
        forall|i: int| 0 <= i < s.len() ==> s[i] <= sum(s),
    decreases s.len(),
{
    if s.len() > 0 {
        lemma_sum_nonneg(s.drop_last());
        assert forall|i: int| 0 <= i < s.len() implies s[i] <= sum(s) by {
            if i < s.len() - 1 {
                assert(s[i] == s.drop_last()[i]);
            }
        }
    }
}

proof fn lemma_sum_sq_affine(s: Seq<int>, k: int, c: int)
    ensures
        sum_sq(affine(s, k, c)) == k * k * sum_sq(s) - 2 * k * c * sum(s) + s.len() * c * c,
    decreases s.len(),
{
    if s.len() > 0 {
        let t = s.drop_last();
        let x = s.last();
        lemma_sum_sq_affine(t, k, c);
        assert(affine(s, k, c) =~= affine(t, k, c).push(k * x - c));
        lemma_products_push(affine(t, k, c), affine(t, k, c), k * x - c, k * x - c);
        lemma_sum_push(products(affine(t, k, c), affine(t, k, c)), (k * x - c) * (k * x - c));
        assert(s =~= t.push(x));
        lemma_products_push(t, t, x, x);
        lemma_sum_push(products(t, t), x * x);
        lemma_sum_push(t, x);
        let q = sum_sq(t);
        let m = sum(t);
        let n = t.len();
        assert((k * x - c) * (k * x - c) == k * k * (x * x) - 2 * k * c * x + c * c)
            by (nonlinear_arith);
        assert(k * k * (q + x * x) == k * k * q + k * k * (x * x)) by (nonlinear_arith);
        assert(2 * k * c * (m + x) == 2 * k * c * m + 2 * k * c * x) by (nonlinear_arith);
        assert((n + 1) * c * c == n * c * c + c * c) by (nonlinear_arith);
    }
}

/// The scaled variance of a sequence is never negative.
pub proof fn lemma_spread_nonneg(s: Seq<int>)
    ensures
        spread(s) >= 0,
        // a non-constant sequence has positive spread
        (exists|i: int, j: int| 0 <= i < s.len() && 0 <= j < s.len() && s[i] != s[j]) ==> spread(
            s,
        ) > 0,
{
    let n = s.len() as int;
    let a = affine(s, n, sum(s));
    lemma_sum_sq_affine(s, n, sum(s));
    let q = sum_sq(s);
    let m = sum(s);
    assert(n * n * q - 2 * n * m * m + n * m * m == n * (n * q - m * m)) by (nonlinear_arith);
    let p = products(a, a);
    assert forall|i: int| 0 <= i < p.len() implies 0 <= #[trigger] p[i] by {
        assert(p[i] == a[i] * a[i]);
        assert(0 <= a[i] * a[i]) by (nonlinear_arith);
    }
    lemma_sum_nonneg(p);
    if n > 0 {
        assert(spread(s) >= 0) by (nonlinear_arith)
            requires
                n * spread(s) >= 0,
                n > 0,
        ;
    } else {
        assert(s =~= Seq::<int>::empty());
    }
    if exists|i: int, j: int| 0 <= i < s.len() && 0 <= j < s.len() && s[i] != s[j] {
        let (i, j) = choose|i: int, j: int| 0 <= i < s.len() && 0 <= j < s.len() && s[i] != s[j];
        // not both can equal the mean
        let (si, sj) = (s[i], s[j]);
        assert(n * si - m != 0 || n * sj - m != 0) by (nonlinear_arith)
            requires
                si != sj,
                n > 0,
        ;
        let k = if n * s[i] - m != 0 { i } else { j };
        assert(a[k] == n * s[k] - m);
        assert(p[k] == a[k] * a[k]);
        assert(a[k] * a[k] > 0) by (nonlinear_arith)
            requires
                a[k] != 0,
        ;
        assert(spread(s) > 0) by (nonlinear_arith)
            requires
                n * spread(s) == sum(p),
                sum(p) >= p[k],
                p[k] > 0,
                n > 0,
        ;
    }
}

} // verus!

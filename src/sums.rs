//! Finite sums over an index range and the facts about them used by the analysis.
use vstd::prelude::*;

verus! {

/// `f(0) + f(1) + ... + f(m - 1)`.
pub open spec fn sum(f: spec_fn(int) -> int, m: int) -> int
    decreases m,
{
    if m <= 0 {
        0
    } else {
        sum(f, m - 1) + f(m - 1)
    }
}

pub open spec fn sq(x: int) -> int {
    x * x
}

pub proof fn lemma_sq_bound(x: int, b: int)
    requires
        -b <= x <= b,
    ensures
        0 <= sq(x) <= b * b,
{
    assert(0 <= x * x <= b * b) by (nonlinear_arith)
        requires
            -b <= x <= b,
    ;
}

pub proof fn lemma_mul_bound(x: int, bx: int, y: int, by_: int)
    requires
        -bx <= x <= bx,
        -by_ <= y <= by_,
    ensures
        -(bx * by_) <= x * y <= bx * by_,
{
    assert(-(bx * by_) <= x * y <= bx * by_) by (nonlinear_arith)
        requires
            -bx <= x <= bx,
            -by_ <= y <= by_,
    ;
}

pub proof fn lemma_sum_nonneg(f: spec_fn(int) -> int, m: int)
    requires
        forall|i: int| 0 <= i < m ==> #[trigger] f(i) >= 0,
    ensures
        sum(f, m) >= 0,
    decreases m,
{
    if m > 0 {
        lemma_sum_nonneg(f, m - 1);
    }
}

pub proof fn lemma_sum_ext(f: spec_fn(int) -> int, g: spec_fn(int) -> int, m: int)
    requires
        forall|i: int| 0 <= i < m ==> #[trigger] f(i) == g(i),
    ensures
        sum(f, m) == sum(g, m),
    decreases m,
{
    if m > 0 {
        lemma_sum_ext(f, g, m - 1);
    }
}

pub proof fn lemma_sum_add(f: spec_fn(int) -> int, g: spec_fn(int) -> int, m: int)
    ensures
        sum(|i: int| f(i) + g(i), m) == sum(f, m) + sum(g, m),
    decreases m,
{
    if m > 0 {
        lemma_sum_add(f, g, m - 1);
    }
}

pub proof fn lemma_sum_const(f: spec_fn(int) -> int, c: int, m: int)
    requires
        m >= 0,
        forall|i: int| 0 <= i < m ==> #[trigger] f(i) == c,
    ensures
        sum(f, m) == m * c,
    decreases m,
{
    if m > 0 {
        lemma_sum_const(f, c, m - 1);
        assert(f(m - 1) == c);
        assert((m - 1) * c + c == m * c) by (nonlinear_arith);
    } else {
        assert(m * c == 0) by (nonlinear_arith)
            requires
                m == 0,
        ;
    }
}

/// A sum that is zero but at one index in range is its value there.
pub proof fn lemma_sum_single(f: spec_fn(int) -> int, j: int, m: int)
    requires
        0 <= j < m,
        forall|i: int| 0 <= i < m && i != j ==> #[trigger] f(i) == 0,
    ensures
        sum(f, m) == f(j),
    decreases m,
{
    if m - 1 > j {
        lemma_sum_single(f, j, m - 1);
    } else {
        lemma_sum_const(f, 0, m - 1);
    }
}

/// Splitting a weighted count by the class `g(k)` of each index: the class
/// totals add up to the whole.
pub proof fn lemma_sum_by_class(g: spec_fn(int) -> int, w: spec_fn(int) -> int, q: int, m: int)
    requires
        q >= 0,
        forall|k: int| 0 <= k < m ==> 0 <= #[trigger] g(k) < q,
    ensures
        sum(|j: int| sum(|k: int| if g(k) == j { w(k) } else { 0int }, m), q) == sum(w, m),
    decreases m,
{
    let total = |j: int| sum(|k: int| if g(k) == j { w(k) } else { 0int }, m);
    if m > 0 {
        lemma_sum_by_class(g, w, q, m - 1);
        let prev = |j: int| sum(|k: int| if g(k) == j { w(k) } else { 0int }, m - 1);
        let last = |j: int| if g(m - 1) == j { w(m - 1) } else { 0int };
        lemma_sum_add(prev, last, q);
        assert forall|j: int| 0 <= j < q implies #[trigger] total(j) == prev(j) + last(j) by {}
        lemma_sum_ext(total, |j: int| prev(j) + last(j), q);
        lemma_sum_single(last, g(m - 1), q);
    } else {
        lemma_sum_const(total, 0, q);
    }
}

/// Sums over a rectangle may be taken in either order.
pub proof fn lemma_sum_swap(f: spec_fn(int, int) -> int, m: int, n: int)
    requires
        n >= 0,
    ensures
        sum(|a: int| sum(|b: int| f(a, b), n), m) == sum(|b: int| sum(|a: int| f(a, b), m), n),
    decreases m,
{
    let rows = |a: int| sum(|b: int| f(a, b), n);
    let cols = |b: int| sum(|a: int| f(a, b), m);
    if m > 0 {
        lemma_sum_swap(f, m - 1, n);
        let prev = |b: int| sum(|a: int| f(a, b), m - 1);
        let last = |b: int| f(m - 1, b);
        lemma_sum_add(prev, last, n);
        assert forall|b: int| 0 <= b < n implies #[trigger] cols(b) == prev(b) + last(b) by {
            assert(sum(|a: int| f(a, b), m) == sum(|a: int| f(a, b), m - 1) + f(m - 1, b));
        }
        lemma_sum_ext(cols, |b: int| prev(b) + last(b), n);
        lemma_sum_ext(|b: int| f(m - 1, b), last, n);
        assert(sum(rows, m) == sum(rows, m - 1) + rows(m - 1));
    } else {
        lemma_sum_const(cols, 0, n);
    }
}

/// A linear combination of two sums.
pub proof fn lemma_sum_linear(f: spec_fn(int) -> int, g: spec_fn(int) -> int, a: int, b: int, m: int)
    ensures
        sum(|i: int| a * f(i) + b * g(i), m) == a * sum(f, m) + b * sum(g, m),
    decreases m,
{
    if m > 0 {
        lemma_sum_linear(f, g, a, b, m - 1);
        let sf = sum(f, m - 1);
        let sg = sum(g, m - 1);
        let fi = f(m - 1);
        let gi = g(m - 1);
        assert(a * (sf + fi) + b * (sg + gi) == a * sf + b * sg + (a * fi + b * gi)) by (nonlinear_arith);
    } else {
        assert(a * 0 + b * 0 == 0) by (nonlinear_arith);
    }
}

/// Expansion of a weighted sum of squared deviations:
/// `sum_k w_k (a y_k - s)^2 = a^2 sum_k w_k y_k^2 - 2 a s sum_k w_k y_k + s^2 sum_k w_k`.
pub proof fn lemma_sum_weighted_square(w: spec_fn(int) -> int, y: spec_fn(int) -> int, a: int, s: int, m: int)
    ensures
        sum(|k: int| w(k) * sq(a * y(k) - s), m) == a * a * sum(|k: int| w(k) * sq(y(k)), m) - 2 * a * s * sum(
            |k: int| w(k) * y(k),
            m,
        ) + s * s * sum(w, m),
    decreases m,
{
    if m > 0 {
        lemma_sum_weighted_square(w, y, a, s, m - 1);
        let s1 = sum(|k: int| w(k) * sq(y(k)), m - 1);
        let s2 = sum(|k: int| w(k) * y(k), m - 1);
        let s3 = sum(w, m - 1);
        let wk = w(m - 1);
        let yk = y(m - 1);
        let d = a * yk;
        assert((d - s) * (d - s) == d * d - 2 * (d * s) + s * s) by (nonlinear_arith);
        assert(d * d == a * a * (yk * yk)) by (nonlinear_arith)
            requires
                d == a * yk,
        ;
        assert(wk * (d * d - 2 * (d * s) + s * s) == wk * (d * d) - 2 * (wk * (d * s)) + wk * (s * s))
            by (nonlinear_arith);
        assert(wk * (a * a * (yk * yk)) == a * a * (wk * (yk * yk))) by (nonlinear_arith);
        assert(wk * (d * s) == a * s * (wk * yk)) by (nonlinear_arith)
            requires
                d == a * yk,
        ;
        assert(wk * (s * s) == s * s * wk) by (nonlinear_arith);
        assert(2 * (a * s * (wk * yk)) == 2 * a * s * (wk * yk)) by (nonlinear_arith);
        assert(a * a * (s1 + wk * (yk * yk)) - 2 * a * s * (s2 + wk * yk) + s * s * (s3 + wk) == (a * a * s1 - 2 * a
            * s * s2 + s * s * s3) + (a * a * (wk * (yk * yk)) - 2 * a * s * (wk * yk) + s * s * wk))
            by (nonlinear_arith);
    } else {
        assert(a * a * 0 - 2 * a * s * 0 + s * s * 0 == 0) by (nonlinear_arith);
    }
}

} // verus!

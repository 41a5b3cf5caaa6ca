//! Two-factor crossed analysis of variance of a balanced Gage R&R design.
//!
//! With `n` observations, grand total `T`, part totals `P_a`, operator totals
//! `O_b` and cell totals `C_ab`, every sum of squares of the design is a
//! fraction with denominator `n * n`. The model below states the numerators,
//! the "scaled sums of squares", written in the deviation form of the usual
//! definitions: for instance the part means differ from the grand mean by
//! `(p * P_a - T) / n`, so `n * n * SS_parts == o * r * sum_a (p * P_a - T)^2`.
use vstd::prelude::*;
use crate::dataset::{GroupedDataset, Observation};
use crate::fraction::{Ratio, Scalar};
use crate::sums::{sum, sq, lemma_sum_ext, lemma_sq_bound, lemma_mul_bound, lemma_sum_nonneg, lemma_sum_by_class, lemma_sum_const};

verus! {

/// The largest number of observations the analysis accepts.
pub const MAX_OBSERVATIONS: usize = 1024;

/// The largest magnitude of a measured value the analysis accepts.
pub const MAX_MAGNITUDE: i32 = 16777216;

/// Why a set of observations does not form a design the analysis accepts.
#[derive(Clone, Copy, Debug, PartialEq, Eq, Structural)]
pub enum DesignError {
    /// More than `MAX_OBSERVATIONS` observations.
    TooManyObservations,
    /// A measured value of magnitude above `MAX_MAGNITUDE`.
    MeasurementOutOfRange,
    /// Fewer than two distinct parts.
    TooFewParts,
    /// Fewer than two distinct operators.
    TooFewOperators,
    /// A part and operator cell without any observation.
    EmptyCell,
    /// Cells with different numbers of replicates.
    Unbalanced,
}

pub open spec fn in_cell(ob: Observation, a: int, b: int) -> bool {
    ob.part == a && ob.operator == b
}

/// Number of observations of part `a` by operator `b`.
pub open spec fn cell_count(obs: Seq<Observation>, a: int, b: int) -> int {
    sum(|k: int| if in_cell(obs[k], a, b) { 1int } else { 0int }, obs.len() as int)
}

/// Sum of the observations of part `a` by operator `b`.
pub open spec fn cell_sum(obs: Seq<Observation>, a: int, b: int) -> int {
    sum(|k: int| if in_cell(obs[k], a, b) { obs[k].value as int } else { 0int }, obs.len() as int)
}

/// Number of observations of part `a`.
pub open spec fn part_count(obs: Seq<Observation>, o: int, a: int) -> int {
    sum(|b: int| cell_count(obs, a, b), o)
}

/// Sum of the observations of part `a`.
pub open spec fn part_total(obs: Seq<Observation>, o: int, a: int) -> int {
    sum(|b: int| cell_sum(obs, a, b), o)
}

/// Sum of the observations by operator `b`.
pub open spec fn operator_total(obs: Seq<Observation>, p: int, b: int) -> int {
    sum(|a: int| cell_sum(obs, a, b), p)
}

/// Sum of all observations.
pub open spec fn grand_total(obs: Seq<Observation>, p: int, o: int) -> int {
    sum(|a: int| part_total(obs, o, a), p)
}

/// The replicate count of the design, read from its first cell.
pub open spec fn replicates(obs: Seq<Observation>) -> int {
    cell_count(obs, 0, 0)
}

pub open spec fn value_in_range(ob: Observation) -> bool {
    -MAX_MAGNITUDE <= ob.value <= MAX_MAGNITUDE
}

pub open spec fn values_in_range(obs: Seq<Observation>) -> bool {
    forall|k: int| 0 <= k < obs.len() ==> value_in_range(#[trigger] obs[k])
}

pub open spec fn has_empty_cell(obs: Seq<Observation>, p: int, o: int) -> bool {
    exists|a: int, b: int| 0 <= a < p && 0 <= b < o && #[trigger] cell_count(obs, a, b) == 0
}

pub open spec fn has_uneven_cell(obs: Seq<Observation>, p: int, o: int) -> bool {
    exists|a: int, b: int| 0 <= a < p && 0 <= b < o && #[trigger] cell_count(obs, a, b) != replicates(obs)
}

/// The first reason, in the order of the variants, for which the observations
/// of a `p` by `o` design are refused; `None` for a design the analysis accepts.
pub open spec fn design_error(obs: Seq<Observation>, p: int, o: int) -> Option<DesignError> {
    if obs.len() > MAX_OBSERVATIONS {
        Some(DesignError::TooManyObservations)
    } else if !values_in_range(obs) {
        Some(DesignError::MeasurementOutOfRange)
    } else if p < 2 {
        Some(DesignError::TooFewParts)
    } else if o < 2 {
        Some(DesignError::TooFewOperators)
    } else if has_empty_cell(obs, p, o) {
        Some(DesignError::EmptyCell)
    } else if has_uneven_cell(obs, p, o) {
        Some(DesignError::Unbalanced)
    } else {
        None
    }
}

/// Observations whose part and operator indices lie in a `p` by `o` grid.
pub open spec fn indices_in(obs: Seq<Observation>, p: int, o: int) -> bool {
    forall|k: int| 0 <= k < obs.len() ==> (#[trigger] obs[k]).part < p && obs[k].operator < o
}

/// `n * n` times the total sum of squares: `sum_k (n * x_k - T)^2`.
pub open spec fn q_total(obs: Seq<Observation>, p: int, o: int) -> int {
    let n = obs.len() as int;
    let t = grand_total(obs, p, o);
    sum(|k: int| sq(n * obs[k].value - t), n)
}

/// `n * n` times the repeatability (within-cell) sum of squares:
/// `(p * o)^2 * sum_k (r * x_k - C_k)^2`, with `C_k` the total of the cell of `x_k`.
pub open spec fn q_repeatability(obs: Seq<Observation>, p: int, o: int) -> int {
    let r = replicates(obs);
    sq(p * o) * sum(
        |k: int| sq(r * obs[k].value - cell_sum(obs, obs[k].part as int, obs[k].operator as int)),
        obs.len() as int,
    )
}

/// `n * n` times the part sum of squares: `o * r * sum_a (p * P_a - T)^2`.
pub open spec fn q_parts(obs: Seq<Observation>, p: int, o: int) -> int {
    let t = grand_total(obs, p, o);
    o * replicates(obs) * sum(|a: int| sq(p * part_total(obs, o, a) - t), p)
}

/// `n * n` times the operator sum of squares: `p * r * sum_b (o * O_b - T)^2`.
pub open spec fn q_operators(obs: Seq<Observation>, p: int, o: int) -> int {
    let t = grand_total(obs, p, o);
    p * replicates(obs) * sum(|b: int| sq(o * operator_total(obs, p, b) - t), o)
}

/// The interaction deviation of cell `(a, b)`, times `n`.
pub open spec fn interaction_term(obs: Seq<Observation>, p: int, o: int, a: int, b: int) -> int {
    p * o * cell_sum(obs, a, b) - p * part_total(obs, o, a) - o * operator_total(obs, p, b) + grand_total(obs, p, o)
}

/// `n * n` times the part-by-operator interaction sum of squares:
/// `r * sum_ab (p * o * C_ab - p * P_a - o * O_b + T)^2`.
pub open spec fn q_interaction(obs: Seq<Observation>, p: int, o: int) -> int {
    replicates(obs) * sum(|a: int| sum(|b: int| sq(interaction_term(obs, p, o, a, b)), o), p)
}

/// Every observation lies in exactly one cell, so the cell counts add up to `n`.
pub proof fn lemma_cell_counts_total(obs: Seq<Observation>, p: int, o: int)
    requires
        p >= 0,
        o >= 0,
        indices_in(obs, p, o),
    ensures
        sum(|a: int| part_count(obs, o, a), p) == obs.len(),
{
    let n = obs.len() as int;
    let part_of = |k: int| obs[k].part as int;
    let op_of = |k: int| obs[k].operator as int;
    let one = |k: int| 1int;
    let in_part = |a: int| sum(|k: int| if part_of(k) == a { one(k) } else { 0int }, n);
    assert forall|a: int| 0 <= a < p implies #[trigger] part_count(obs, o, a) == in_part(a) by {
        let w = |k: int| if part_of(k) == a { 1int } else { 0int };
        lemma_sum_by_class(op_of, w, o, n);
        assert forall|b: int| 0 <= b < o implies #[trigger] cell_count(obs, a, b) == sum(|k: int| if op_of(k) == b { w(k) } else { 0int }, n) by {
            lemma_sum_ext(
                |k: int| if in_cell(obs[k], a, b) { 1int } else { 0int },
                |k: int| if op_of(k) == b { w(k) } else { 0int },
                n,
            );
        }
        lemma_sum_ext(|b: int| cell_count(obs, a, b), |b: int| sum(|k: int| if op_of(k) == b { w(k) } else { 0int }, n), o);
        lemma_sum_ext(w, |k: int| if part_of(k) == a { one(k) } else { 0int }, n);
    }
    lemma_sum_ext(|a: int| part_count(obs, o, a), in_part, p);
    lemma_sum_by_class(part_of, one, p, n);
    lemma_sum_const(one, 1, n);
}

/// In an accepted design every cell holds `r` observations, so `n == p * o * r`.
pub proof fn lemma_design_size(obs: Seq<Observation>, p: int, o: int)
    requires
        indices_in(obs, p, o),
        design_error(obs, p, o) is None,
    ensures
        obs.len() == p * o * replicates(obs),
        replicates(obs) >= 1,
{
    let r = replicates(obs);
    lemma_cell_counts_total(obs, p, o);
    assert forall|a: int| 0 <= a < p implies #[trigger] part_count(obs, o, a) == o * r by {
        assert forall|b: int| 0 <= b < o implies #[trigger] cell_count(obs, a, b) == r by {
            assert(!has_uneven_cell(obs, p, o));
        }
        lemma_sum_const(|b: int| cell_count(obs, a, b), r, o);
    }
    lemma_sum_const(|a: int| part_count(obs, o, a), o * r, p);
    assert(p * (o * r) == p * o * r) by (nonlinear_arith);
    assert(!has_empty_cell(obs, p, o));
    assert(cell_count(obs, 0, 0) != 0);
    lemma_sum_nonneg(|k: int| if in_cell(obs[k], 0, 0) { 1int } else { 0int }, obs.len() as int);
}

/// The number and total of the observations of one cell.
fn cell_stats(obs: &Vec<Observation>, a: usize, b: usize) -> (res: (usize, i128))
    requires
        obs@.len() <= MAX_OBSERVATIONS,
        values_in_range(obs@),
    ensures
        res.0 == cell_count(obs@, a as int, b as int),
        res.1 == cell_sum(obs@, a as int, b as int),
        -(res.0 * MAX_MAGNITUDE) <= res.1 <= res.0 * MAX_MAGNITUDE,
{
    let mut count: usize = 0;
    let mut total: i128 = 0;
    let mut k: usize = 0;
    while k < obs.len()
        invariant
            k <= obs@.len(),
            obs@.len() <= MAX_OBSERVATIONS,
            values_in_range(obs@),
            count <= k,
            count == sum(|j: int| if in_cell(obs@[j], a as int, b as int) { 1int } else { 0int }, k as int),
            total == sum(|j: int| if in_cell(obs@[j], a as int, b as int) { obs@[j].value as int } else { 0int }, k as int),
            -(count * MAX_MAGNITUDE) <= total <= count * MAX_MAGNITUDE,
        decreases obs@.len() - k,
    {
        let ob = obs[k];
        assert(value_in_range(obs@[k as int]));
        if ob.part == a && ob.operator == b {
            count = count + 1;
            total = total + ob.value as i128;
        }
        k = k + 1;
    }
    (count, total)
}

/// The count and total of every cell of a `p` by `o` design.
fn cell_table(obs: &Vec<Observation>, p: usize, o: usize) -> (res: (Vec<Vec<usize>>, Vec<Vec<i128>>))
    requires
        obs@.len() <= MAX_OBSERVATIONS,
        values_in_range(obs@),
    ensures
        res.0@.len() == p,
        res.1@.len() == p,
        forall|a: int| 0 <= a < p ==> (#[trigger] res.0@[a])@.len() == o,
        forall|a: int| 0 <= a < p ==> (#[trigger] res.1@[a])@.len() == o,
        forall|a: int, b: int|
            0 <= a < p && 0 <= b < o ==> #[trigger] res.0@[a]@[b] == cell_count(obs@, a, b)
                && res.1@[a]@[b] == cell_sum(obs@, a, b)
                && -(res.0@[a]@[b] * MAX_MAGNITUDE) <= res.1@[a]@[b] <= res.0@[a]@[b] * MAX_MAGNITUDE,
{
    let mut counts: Vec<Vec<usize>> = Vec::new();
    let mut sums: Vec<Vec<i128>> = Vec::new();
    let mut a: usize = 0;
    while a < p
        invariant
            a <= p,
            obs@.len() <= MAX_OBSERVATIONS,
            values_in_range(obs@),
            counts@.len() == a,
            sums@.len() == a,
            forall|i: int| 0 <= i < a ==> (#[trigger] counts@[i])@.len() == o,
            forall|i: int| 0 <= i < a ==> (#[trigger] sums@[i])@.len() == o,
            forall|i: int, j: int|
                0 <= i < a && 0 <= j < o ==> #[trigger] counts@[i]@[j] == cell_count(obs@, i, j)
                    && sums@[i]@[j] == cell_sum(obs@, i, j)
                    && -(counts@[i]@[j] * MAX_MAGNITUDE) <= sums@[i]@[j] <= counts@[i]@[j] * MAX_MAGNITUDE,
        decreases p - a,
    {
        let mut row_counts: Vec<usize> = Vec::new();
        let mut row_sums: Vec<i128> = Vec::new();
        let mut b: usize = 0;
        while b < o
            invariant
                b <= o,
                obs@.len() <= MAX_OBSERVATIONS,
                values_in_range(obs@),
                row_counts@.len() == b,
                row_sums@.len() == b,
                forall|j: int|
                    0 <= j < b ==> #[trigger] row_counts@[j] == cell_count(obs@, a as int, j)
                        && row_sums@[j] == cell_sum(obs@, a as int, j)
                        && -(row_counts@[j] * MAX_MAGNITUDE) <= row_sums@[j] <= row_counts@[j] * MAX_MAGNITUDE,
            decreases o - b,
        {
            let (c, s) = cell_stats(obs, a, b);
            row_counts.push(c);
            row_sums.push(s);
            b = b + 1;
        }
        counts.push(row_counts);
        sums.push(row_sums);
        a = a + 1;
    }
    (counts, sums)
}

/// Whether every observation lies within the accepted magnitude.
fn all_values_in_range(obs: &Vec<Observation>) -> (ok: bool)
    ensures
        ok == values_in_range(obs@),
{
    let mut k: usize = 0;
    while k < obs.len()
        invariant
            k <= obs@.len(),
            forall|j: int| 0 <= j < k ==> value_in_range(#[trigger] obs@[j]),
        decreases obs@.len() - k,
    {
        if obs[k].value < -MAX_MAGNITUDE || obs[k].value > MAX_MAGNITUDE {
            assert(!value_in_range(obs@[k as int]));
            return false;
        }
        k = k + 1;
    }
    true
}

/// The cell-structure error of a table of cell counts, if any.
fn cell_problem(counts: &Vec<Vec<usize>>, obs: Ghost<Seq<Observation>>, p: usize, o: usize) -> (res: Option<DesignError>)
    requires
        p >= 1,
        o >= 1,
        counts@.len() == p,
        forall|a: int| 0 <= a < p ==> (#[trigger] counts@[a])@.len() == o,
        forall|a: int, b: int| 0 <= a < p && 0 <= b < o ==> #[trigger] counts@[a]@[b] == cell_count(obs@, a, b),
    ensures
        res == (if has_empty_cell(obs@, p as int, o as int) {
            Some(DesignError::EmptyCell)
        } else if has_uneven_cell(obs@, p as int, o as int) {
            Some(DesignError::Unbalanced)
        } else {
            None
        }),
{
    let mut a: usize = 0;
    while a < p
        invariant
            a <= p,
            counts@.len() == p,
            forall|i: int| 0 <= i < p ==> (#[trigger] counts@[i])@.len() == o,
            forall|i: int, j: int| 0 <= i < p && 0 <= j < o ==> #[trigger] counts@[i]@[j] == cell_count(obs@, i, j),
            forall|i: int, j: int| 0 <= i < a && 0 <= j < o ==> #[trigger] cell_count(obs@, i, j) != 0,
        decreases p - a,
    {
        let mut b: usize = 0;
        while b < o
            invariant
                a < p,
                b <= o,
                counts@.len() == p,
                forall|i: int| 0 <= i < p ==> (#[trigger] counts@[i])@.len() == o,
            forall|i: int, j: int| 0 <= i < p && 0 <= j < o ==> #[trigger] counts@[i]@[j] == cell_count(obs@, i, j),
                forall|i: int, j: int| 0 <= i < p && 0 <= j < o ==> #[trigger] counts@[i]@[j] == cell_count(obs@, i, j),
                forall|i: int, j: int| 0 <= i < a && 0 <= j < o ==> #[trigger] cell_count(obs@, i, j) != 0,
                forall|j: int| 0 <= j < b ==> #[trigger] cell_count(obs@, a as int, j) != 0,
            decreases o - b,
        {
            if counts[a][b] == 0 {
                assert(cell_count(obs@, a as int, b as int) == 0);
                return Some(DesignError::EmptyCell);
            }
            b = b + 1;
        }
        a = a + 1;
    }
    let r = counts[0][0];
    let mut a: usize = 0;
    while a < p
        invariant
            a <= p,
            counts@.len() == p,
            r == cell_count(obs@, 0, 0),
            !has_empty_cell(obs@, p as int, o as int),
            forall|i: int| 0 <= i < p ==> (#[trigger] counts@[i])@.len() == o,
            forall|i: int, j: int| 0 <= i < p && 0 <= j < o ==> #[trigger] counts@[i]@[j] == cell_count(obs@, i, j),
            forall|i: int, j: int| 0 <= i < a && 0 <= j < o ==> #[trigger] cell_count(obs@, i, j) == r,
        decreases p - a,
    {
        let mut b: usize = 0;
        while b < o
            invariant
                a < p,
                b <= o,
                counts@.len() == p,
                r == cell_count(obs@, 0, 0),
                !has_empty_cell(obs@, p as int, o as int),
                forall|i: int| 0 <= i < p ==> (#[trigger] counts@[i])@.len() == o,
            forall|i: int, j: int| 0 <= i < p && 0 <= j < o ==> #[trigger] counts@[i]@[j] == cell_count(obs@, i, j),
                forall|i: int, j: int| 0 <= i < p && 0 <= j < o ==> #[trigger] counts@[i]@[j] == cell_count(obs@, i, j),
                forall|i: int, j: int| 0 <= i < a && 0 <= j < o ==> #[trigger] cell_count(obs@, i, j) == r,
                forall|j: int| 0 <= j < b ==> #[trigger] cell_count(obs@, a as int, j) == r,
            decreases o - b,
        {
            if counts[a][b] != r {
                assert(cell_count(obs@, a as int, b as int) != replicates(obs@));
                return Some(DesignError::Unbalanced);
            }
            b = b + 1;
        }
        a = a + 1;
    }
    None
}

/// The sum of the entries of a vector, each of magnitude at most `bound`.
fn vec_sum(v: &Vec<i128>, bound: Ghost<int>) -> (total: i128)
    requires
        bound@ >= 0,
        v@.len() * bound@ <= 0x1_0000_0000_0000_0000_0000_0000,
        forall|j: int| 0 <= j < v@.len() ==> -bound@ <= #[trigger] v@[j] <= bound@,
    ensures
        total == sum(|j: int| v@[j] as int, v@.len() as int),
        -(v@.len() * bound@) <= total <= v@.len() * bound@,
{
    let mut total: i128 = 0;
    let mut j: usize = 0;
    while j < v.len()
        invariant
            j <= v@.len(),
            bound@ >= 0,
            v@.len() * bound@ <= 0x1_0000_0000_0000_0000_0000_0000,
            forall|i: int| 0 <= i < v@.len() ==> -bound@ <= #[trigger] v@[i] <= bound@,
            total == sum(|i: int| v@[i] as int, j as int),
            -(j * bound@) <= total <= j * bound@,
        decreases v@.len() - j,
    {
        proof {
            let b = bound@;
            let jj = j as int;
            let len = v@.len() as int;
            assert((jj + 1) * b == jj * b + b) by (nonlinear_arith);
            assert((jj + 1) * b <= len * b) by (nonlinear_arith)
                requires
                    jj + 1 <= len,
                    b >= 0,
            ;
        }
        total = total + v[j];
        j = j + 1;
    }
    total
}

/// The cell totals of one column of the table.
fn column(sums: &Vec<Vec<i128>>, p: usize, o: usize, b: usize) -> (col: Vec<i128>)
    requires
        b < o,
        sums@.len() == p,
        forall|a: int| 0 <= a < p ==> (#[trigger] sums@[a])@.len() == o,
    ensures
        col@.len() == p,
        forall|a: int| 0 <= a < p ==> #[trigger] col@[a] == sums@[a]@[b as int],
{
    let mut col: Vec<i128> = Vec::new();
    let mut a: usize = 0;
    while a < p
        invariant
            a <= p,
            b < o,
            sums@.len() == p,
            forall|i: int| 0 <= i < p ==> (#[trigger] sums@[i])@.len() == o,
            col@.len() == a,
            forall|i: int| 0 <= i < a ==> #[trigger] col@[i] == sums@[i]@[b as int],
        decreases p - a,
    {
        col.push(sums[a][b]);
        a = a + 1;
    }
    col
}

/// Part totals, operator totals and the grand total, from the cell totals of
/// an accepted design.
fn margins(sums: &Vec<Vec<i128>>, obs: Ghost<Seq<Observation>>, p: usize, o: usize) -> (res: (Vec<i128>, Vec<i128>, i128))
    requires
        indices_in(obs@, p as int, o as int),
        design_error(obs@, p as int, o as int) is None,
        sums@.len() == p,
        forall|a: int| 0 <= a < p ==> (#[trigger] sums@[a])@.len() == o,
        forall|a: int, b: int|
            0 <= a < p && 0 <= b < o ==> #[trigger] sums@[a]@[b] == cell_sum(obs@, a, b)
                && -(replicates(obs@) * MAX_MAGNITUDE) <= cell_sum(obs@, a, b) <= replicates(obs@) * MAX_MAGNITUDE,
    ensures
        res.0@.len() == p,
        res.1@.len() == o,
        forall|a: int| 0 <= a < p ==> #[trigger] res.0@[a] == part_total(obs@, o as int, a)
            && -(o * replicates(obs@) * MAX_MAGNITUDE) <= res.0@[a] <= o * replicates(obs@) * MAX_MAGNITUDE,
        forall|b: int| 0 <= b < o ==> #[trigger] res.1@[b] == operator_total(obs@, p as int, b)
            && -(p * replicates(obs@) * MAX_MAGNITUDE) <= res.1@[b] <= p * replicates(obs@) * MAX_MAGNITUDE,
        res.2 == grand_total(obs@, p as int, o as int),
        -(obs@.len() * MAX_MAGNITUDE) <= res.2 <= obs@.len() * MAX_MAGNITUDE,
{
    let ghost r = replicates(obs@);
    let ghost x = MAX_MAGNITUDE as int;
    let ghost n = obs@.len() as int;
    proof {
        lemma_design_size(obs@, p as int, o as int);
        assert(r * x >= 0) by (nonlinear_arith) requires r >= 1, x >= 0;
        assert(o * (r * x) == o * r * x && p * (r * x) == p * r * x && p * (o * r * x) == n * x) by (nonlinear_arith)
            requires n == p * o * r;
        assert(n * x <= 1024 * x) by (nonlinear_arith) requires n <= 1024, x >= 0;
        assert(o * r <= n && p * r <= n) by (nonlinear_arith) requires n == p * o * r, p >= 1, o >= 1, r >= 1;
        assert(o * r * x <= n * x && p * r * x <= n * x) by (nonlinear_arith)
            requires o * r <= n, p * r <= n, x >= 0;
        assert forall|i: int, j: int| 0 <= i < p && 0 <= j < o implies #[trigger] sums@[i]@[j] == cell_sum(obs@, i, j)
            && -(r * x) <= cell_sum(obs@, i, j) <= r * x by {
            assert(sums@[i]@[j] == cell_sum(obs@, i, j));
        }
    }
    let mut parts: Vec<i128> = Vec::new();
    let mut a: usize = 0;
    while a < p
        invariant
            a <= p,
            sums@.len() == p,
            forall|i: int| 0 <= i < p ==> (#[trigger] sums@[i])@.len() == o,
            forall|i: int, j: int|
                0 <= i < p && 0 <= j < o ==> #[trigger] sums@[i]@[j] == cell_sum(obs@, i, j)
                    && -(r * x) <= cell_sum(obs@, i, j) <= r * x,
            r * x >= 0,
            o * (r * x) == o * r * x,
            o * r * x <= n * x,
            n * x <= 1024 * x,
            x == MAX_MAGNITUDE,
            parts@.len() == a,
            forall|i: int| 0 <= i < a ==> #[trigger] parts@[i] == part_total(obs@, o as int, i)
                && -(o * r * x) <= parts@[i] <= o * r * x,
        decreases p - a,
    {
        let row = &sums[a];
        let t = vec_sum(row, Ghost(r * x));
        proof {
            lemma_sum_ext(|j: int| row@[j] as int, |j: int| cell_sum(obs@, a as int, j), o as int);
        }
        parts.push(t);
        a = a + 1;
    }
    let mut operators: Vec<i128> = Vec::new();
    let mut b: usize = 0;
    while b < o
        invariant
            b <= o,
            sums@.len() == p,
            forall|i: int| 0 <= i < p ==> (#[trigger] sums@[i])@.len() == o,
            forall|i: int, j: int|
                0 <= i < p && 0 <= j < o ==> #[trigger] sums@[i]@[j] == cell_sum(obs@, i, j)
                    && -(r * x) <= cell_sum(obs@, i, j) <= r * x,
            r * x >= 0,
            p * (r * x) == p * r * x,
            p * r * x <= n * x,
            n * x <= 1024 * x,
            x == MAX_MAGNITUDE,
            operators@.len() == b,
            forall|j: int| 0 <= j < b ==> #[trigger] operators@[j] == operator_total(obs@, p as int, j)
                && -(p * r * x) <= operators@[j] <= p * r * x,
        decreases o - b,
    {
        let col = column(sums, p, o, b);
        let t = vec_sum(&col, Ghost(r * x));
        proof {
            lemma_sum_ext(|i: int| col@[i] as int, |i: int| cell_sum(obs@, i, b as int), p as int);
        }
        operators.push(t);
        b = b + 1;
    }
    let grand = vec_sum(&parts, Ghost(o * r * x));
    proof {
        lemma_sum_ext(|i: int| parts@[i] as int, |i: int| part_total(obs@, o as int, i), p as int);
        assert(p * (o * r * x) == n * x) by (nonlinear_arith) requires n == p * o * r;
    }
    (parts, operators, grand)
}

/// A bound on every scaled sum of squares of an accepted design:
/// `16 * N^3 * X^2`, with `N` and `X` the accepted limits.
pub open spec fn q_bound() -> int {
    16 * 1024 * 1024 * 1024 * (MAX_MAGNITUDE as int) * (MAX_MAGNITUDE as int)
}

/// Facts about the size of an accepted design.
pub open spec fn accepted(obs: Seq<Observation>, p: int, o: int) -> bool {
    &&& indices_in(obs, p, o)
    &&& design_error(obs, p, o) is None
}

proof fn lemma_step(k: int, c: int, m: int)
    requires
        0 <= k < m,
        c >= 0,
    ensures
        (k + 1) * c == k * c + c,
        (k + 1) * c <= m * c,
        0 <= k * c,
{
    assert((k + 1) * c == k * c + c) by (nonlinear_arith);
    assert((k + 1) * c <= m * c) by (nonlinear_arith)
        requires
            k + 1 <= m,
            c >= 0,
    ;
    assert(0 <= k * c) by (nonlinear_arith)
        requires
            k >= 0,
            c >= 0,
    ;
}

/// `4 * n^3 * X^2` is within the bound for `n <= N`.
proof fn lemma_cube_bound(n: int, f: int)
    requires
        0 <= n <= 1024,
        1 <= f <= 16,
    ensures
        f * n * n * n * (MAX_MAGNITUDE as int) * (MAX_MAGNITUDE as int) <= q_bound(),
{
    let x = MAX_MAGNITUDE as int;
    assert(f * n * n * n * x * x <= 16 * 1024 * 1024 * 1024 * x * x) by (nonlinear_arith)
        requires
            0 <= n <= 1024,
            1 <= f <= 16,
            x >= 0,
    ;
}

/// `n * n` times the total sum of squares.
fn total_squares(obs: &Vec<Observation>, p: usize, o: usize, t: i128) -> (q: i128)
    requires
        accepted(obs@, p as int, o as int),
        t == grand_total(obs@, p as int, o as int),
        -(obs@.len() * MAX_MAGNITUDE) <= t <= obs@.len() * MAX_MAGNITUDE,
    ensures
        q == q_total(obs@, p as int, o as int),
        0 <= q <= q_bound(),
{
    let n = obs.len();
    let ghost x = MAX_MAGNITUDE as int;
    let ghost c = (2 * n * x) * (2 * n * x);
    proof {
        assert(0 <= c <= 0x1_0000_0000_0000_0000_0000) by (nonlinear_arith)
            requires
                c == (2 * n * x) * (2 * n * x),
                0 <= n <= 1024,
                x == 16777216,
        ;
    }
    let mut acc: i128 = 0;
    let mut k: usize = 0;
    while k < n
        invariant
            n == obs@.len(),
            k <= n,
            n <= 1024,
            x == MAX_MAGNITUDE,
            values_in_range(obs@),
            -(n * x) <= t <= n * x,
            0 <= c <= 0x1_0000_0000_0000_0000_0000,
            c == (2 * n * x) * (2 * n * x),
            acc == sum(|j: int| sq(n * obs@[j].value - t), k as int),
            0 <= acc <= k * c,
        decreases n - k,
    {
        let v = obs[k].value;
        proof {
            assert(value_in_range(obs@[k as int]));
            lemma_mul_bound(n as int, n as int, v as int, x);
            lemma_sq_bound(n * v - t, 2 * n * x);
            lemma_step(k as int, c, 1024);
        }
        let d = (n as i128) * (v as i128) - t;
        acc = acc + d * d;
        k = k + 1;
    }
    proof {
        assert(n * c == 4 * n * n * n * x * x) by (nonlinear_arith)
            requires
                c == (2 * n * x) * (2 * n * x),
        ;
        assert(acc <= n * c) by (nonlinear_arith)
            requires
                acc <= k * c,
                k == n,
        ;
        lemma_cube_bound(n as int, 4);
    }
    acc
}

/// `n * n` times the repeatability sum of squares.
fn repeatability_squares(obs: &Vec<Observation>, sums: &Vec<Vec<i128>>, p: usize, o: usize, r: usize) -> (q: i128)
    requires
        accepted(obs@, p as int, o as int),
        r == replicates(obs@),
        sums@.len() == p,
        forall|a: int| 0 <= a < p ==> (#[trigger] sums@[a])@.len() == o,
        forall|a: int, b: int|
            0 <= a < p && 0 <= b < o ==> #[trigger] sums@[a]@[b] == cell_sum(obs@, a, b)
                && -(r * MAX_MAGNITUDE) <= cell_sum(obs@, a, b) <= r * MAX_MAGNITUDE,
    ensures
        q == q_repeatability(obs@, p as int, o as int),
        0 <= q <= q_bound(),
{
    let n = obs.len();
    let ghost x = MAX_MAGNITUDE as int;
    let ghost c = (2 * r * x) * (2 * r * x);
    proof {
        lemma_design_size(obs@, p as int, o as int);
        assert(r <= n) by (nonlinear_arith)
            requires
                n == p * o * r,
                p >= 2,
                o >= 2,
                r >= 1,
        ;
        assert(0 <= c <= 0x1_0000_0000_0000_0000_0000) by (nonlinear_arith)
            requires
                c == (2 * r * x) * (2 * r * x),
                0 <= r <= 1024,
                x == 16777216,
        ;
    }
    let mut acc: i128 = 0;
    let mut k: usize = 0;
    while k < n
        invariant
            n == obs@.len(),
            k <= n,
            n <= 1024,
            r <= n,
            x == MAX_MAGNITUDE,
            values_in_range(obs@),
            indices_in(obs@, p as int, o as int),
            sums@.len() == p,
            forall|a: int| 0 <= a < p ==> (#[trigger] sums@[a])@.len() == o,
            forall|a: int, b: int|
                0 <= a < p && 0 <= b < o ==> #[trigger] sums@[a]@[b] == cell_sum(obs@, a, b)
                    && -(r * x) <= cell_sum(obs@, a, b) <= r * x,
            0 <= c <= 0x1_0000_0000_0000_0000_0000,
            c == (2 * r * x) * (2 * r * x),
            acc == sum(
                |j: int| sq(r * obs@[j].value - cell_sum(obs@, obs@[j].part as int, obs@[j].operator as int)),
                k as int,
            ),
            0 <= acc <= k * c,
        decreases n - k,
    {
        let ob = obs[k];
        proof {
            assert(value_in_range(obs@[k as int]));
            assert(ob.part < p && ob.operator < o);
            assert(sums@[ob.part as int]@[ob.operator as int] == cell_sum(obs@, ob.part as int, ob.operator as int));
            lemma_mul_bound(r as int, r as int, ob.value as int, x);
            lemma_sq_bound(r * ob.value - cell_sum(obs@, ob.part as int, ob.operator as int), 2 * r * x);
            lemma_step(k as int, c, 1024);
        }
        let d = (r as i128) * (ob.value as i128) - sums[ob.part][ob.operator];
        acc = acc + d * d;
        k = k + 1;
    }
    let ghost po = (p * o) as int;
    proof {
        assert(acc <= n * c) by (nonlinear_arith)
            requires
                acc <= k * c,
                k == n,
        ;
        assert(po * po * acc <= 4 * n * n * n * x * x) by (nonlinear_arith)
            requires
                0 <= acc <= n * c,
                c == (2 * r * x) * (2 * r * x),
                n == po * r,
                po >= 0,
        ;
        lemma_cube_bound(n as int, 4);
        assert(0 <= po * po * acc) by (nonlinear_arith)
            requires
                acc >= 0,
        ;
        assert(po <= 1024) by (nonlinear_arith)
            requires
                n == po * r,
                r >= 1,
                n <= 1024,
                po >= 0,
        ;
    }
    let w = (p as i128) * (o as i128);
    proof {
        assert(w * w <= 1048576) by (nonlinear_arith)
            requires
                w == po,
                0 <= po <= 1024,
        ;
    }
    let ww = w * w;
    assert(ww * acc == po * po * acc);
    ww * acc
}

/// `n * n` times the part sum of squares, from the part totals.
fn parts_squares(parts: &Vec<i128>, obs: Ghost<Seq<Observation>>, p: usize, o: usize, r: usize, t: i128) -> (q: i128)
    requires
        accepted(obs@, p as int, o as int),
        r == replicates(obs@),
        t == grand_total(obs@, p as int, o as int),
        -(obs@.len() * MAX_MAGNITUDE) <= t <= obs@.len() * MAX_MAGNITUDE,
        parts@.len() == p,
        forall|a: int| 0 <= a < p ==> #[trigger] parts@[a] == part_total(obs@, o as int, a)
            && -(o * r * MAX_MAGNITUDE) <= parts@[a] <= o * r * MAX_MAGNITUDE,
    ensures
        q == q_parts(obs@, p as int, o as int),
        0 <= q <= q_bound(),
{
    let ghost n = obs@.len() as int;
    let ghost x = MAX_MAGNITUDE as int;
    let ghost c = (2 * n * x) * (2 * n * x);
    proof {
        lemma_design_size(obs@, p as int, o as int);
        assert(0 <= c <= 0x1_0000_0000_0000_0000_0000) by (nonlinear_arith)
            requires
                c == (2 * n * x) * (2 * n * x),
                0 <= n <= 1024,
                x == 16777216,
        ;
        assert(p * (o * r * x) == n * x) by (nonlinear_arith)
            requires
                n == p * o * r,
        ;
        assert(o * r <= 1024) by (nonlinear_arith)
            requires
                n == p * o * r,
                p >= 1,
                n <= 1024,
                o * r >= 0,
        ;
        assert(p <= n && n == p * (o * r)) by (nonlinear_arith)
            requires
                n == p * o * r,
                o >= 1,
                r >= 1,
                p >= 0,
        ;
    }
    let mut acc: i128 = 0;
    let mut a: usize = 0;
    while a < p
        invariant
            a <= p,
            p <= 1024,
            n <= 1024,
            n == p * (o * r),
            x == MAX_MAGNITUDE,
            p * (o * r * x) == n * x,
            -(n * x) <= t <= n * x,
            parts@.len() == p,
            forall|i: int| 0 <= i < p ==> #[trigger] parts@[i] == part_total(obs@, o as int, i)
                && -(o * r * x) <= parts@[i] <= o * r * x,
            0 <= c <= 0x1_0000_0000_0000_0000_0000,
            c == (2 * n * x) * (2 * n * x),
            acc == sum(|i: int| sq(p * part_total(obs@, o as int, i) - t), a as int),
            0 <= acc <= a * c,
        decreases p - a,
    {
        let v = parts[a];
        proof {
            lemma_mul_bound(p as int, p as int, v as int, o * r * x);
            lemma_sq_bound(p * v - t, 2 * n * x);
            lemma_step(a as int, c, 1024);
        }
        let d = (p as i128) * v - t;
        acc = acc + d * d;
        a = a + 1;
    }
    proof {
        assert((o * r) * acc <= 4 * n * n * n * x * x && 0 <= (o * r) * acc) by (nonlinear_arith)
            requires
                0 <= acc <= a * c,
                a == p,
                c == (2 * n * x) * (2 * n * x),
                n == p * (o * r),
                o * r >= 0,
        ;
        lemma_cube_bound(n, 4);
    }
    let w = (o as i128) * (r as i128);
    assert(w * acc == o * r * acc) by (nonlinear_arith)
        requires
            w == o * r,
    ;
    w * acc
}

/// `n * n` times the operator sum of squares, from the operator totals.
fn operators_squares(operators: &Vec<i128>, obs: Ghost<Seq<Observation>>, p: usize, o: usize, r: usize, t: i128) -> (q: i128)
    requires
        accepted(obs@, p as int, o as int),
        r == replicates(obs@),
        t == grand_total(obs@, p as int, o as int),
        -(obs@.len() * MAX_MAGNITUDE) <= t <= obs@.len() * MAX_MAGNITUDE,
        operators@.len() == o,
        forall|b: int| 0 <= b < o ==> #[trigger] operators@[b] == operator_total(obs@, p as int, b)
            && -(p * r * MAX_MAGNITUDE) <= operators@[b] <= p * r * MAX_MAGNITUDE,
    ensures
        q == q_operators(obs@, p as int, o as int),
        0 <= q <= q_bound(),
{
    let ghost n = obs@.len() as int;
    let ghost x = MAX_MAGNITUDE as int;
    let ghost c = (2 * n * x) * (2 * n * x);
    proof {
        lemma_design_size(obs@, p as int, o as int);
        assert(0 <= c <= 0x1_0000_0000_0000_0000_0000) by (nonlinear_arith)
            requires
                c == (2 * n * x) * (2 * n * x),
                0 <= n <= 1024,
                x == 16777216,
        ;
        assert(o * (p * r * x) == n * x) by (nonlinear_arith)
            requires
                n == p * o * r,
        ;
        assert(p * r <= 1024) by (nonlinear_arith)
            requires
                n == p * o * r,
                o >= 1,
                n <= 1024,
                p * r >= 0,
        ;
        assert(o <= n && n == o * (p * r)) by (nonlinear_arith)
            requires
                n == p * o * r,
                p >= 1,
                r >= 1,
                o >= 0,
        ;
    }
    let mut acc: i128 = 0;
    let mut b: usize = 0;
    while b < o
        invariant
            b <= o,
            o <= 1024,
            n <= 1024,
            n == o * (p * r),
            x == MAX_MAGNITUDE,
            o * (p * r * x) == n * x,
            -(n * x) <= t <= n * x,
            operators@.len() == o,
            forall|i: int| 0 <= i < o ==> #[trigger] operators@[i] == operator_total(obs@, p as int, i)
                && -(p * r * x) <= operators@[i] <= p * r * x,
            0 <= c <= 0x1_0000_0000_0000_0000_0000,
            c == (2 * n * x) * (2 * n * x),
            acc == sum(|i: int| sq(o * operator_total(obs@, p as int, i) - t), b as int),
            0 <= acc <= b * c,
        decreases o - b,
    {
        let v = operators[b];
        proof {
            lemma_mul_bound(o as int, o as int, v as int, p * r * x);
            lemma_sq_bound(o * v - t, 2 * n * x);
            lemma_step(b as int, c, 1024);
        }
        let d = (o as i128) * v - t;
        acc = acc + d * d;
        b = b + 1;
    }
    proof {
        assert((p * r) * acc <= 4 * n * n * n * x * x && 0 <= (p * r) * acc) by (nonlinear_arith)
            requires
                0 <= acc <= b * c,
                b == o,
                c == (2 * n * x) * (2 * n * x),
                n == o * (p * r),
                p * r >= 0,
        ;
        lemma_cube_bound(n, 4);
    }
    let w = (p as i128) * (r as i128);
    assert(w * acc == p * r * acc) by (nonlinear_arith)
        requires
            w == p * r,
    ;
    w * acc
}

/// `n * n` times the interaction sum of squares, from the cell totals and margins.
fn interaction_squares(
    sums: &Vec<Vec<i128>>,
    parts: &Vec<i128>,
    operators: &Vec<i128>,
    obs: Ghost<Seq<Observation>>,
    p: usize,
    o: usize,
    r: usize,
    t: i128,
) -> (q: i128)
    requires
        accepted(obs@, p as int, o as int),
        r == replicates(obs@),
        t == grand_total(obs@, p as int, o as int),
        -(obs@.len() * MAX_MAGNITUDE) <= t <= obs@.len() * MAX_MAGNITUDE,
        sums@.len() == p,
        forall|a: int| 0 <= a < p ==> (#[trigger] sums@[a])@.len() == o,
        forall|a: int, b: int|
            0 <= a < p && 0 <= b < o ==> #[trigger] sums@[a]@[b] == cell_sum(obs@, a, b)
                && -(r * MAX_MAGNITUDE) <= cell_sum(obs@, a, b) <= r * MAX_MAGNITUDE,
        parts@.len() == p,
        forall|a: int| 0 <= a < p ==> #[trigger] parts@[a] == part_total(obs@, o as int, a)
            && -(o * r * MAX_MAGNITUDE) <= parts@[a] <= o * r * MAX_MAGNITUDE,
        operators@.len() == o,
        forall|b: int| 0 <= b < o ==> #[trigger] operators@[b] == operator_total(obs@, p as int, b)
            && -(p * r * MAX_MAGNITUDE) <= operators@[b] <= p * r * MAX_MAGNITUDE,
    ensures
        q == q_interaction(obs@, p as int, o as int),
        0 <= q <= q_bound(),
{
    let ghost n = obs@.len() as int;
    let ghost x = MAX_MAGNITUDE as int;
    let ghost c = (4 * n * x) * (4 * n * x);
    proof {
        lemma_design_size(obs@, p as int, o as int);
        assert(0 <= c <= 0x1_0000_0000_0000_0000_0000_0000) by (nonlinear_arith)
            requires
                c == (4 * n * x) * (4 * n * x),
                0 <= n <= 1024,
                x == 16777216,
        ;
        assert(p * (o * r * x) == n * x && o * (p * r * x) == n * x && (p * o) * (r * x) == n * x) by (nonlinear_arith)
            requires
                n == p * o * r,
        ;
        assert(p * o <= n && p * o <= 1024) by (nonlinear_arith)
            requires
                n == p * o * r,
                r >= 1,
                n <= 1024,
                p >= 1,
                o >= 1,
        ;
        assert(p <= 1024 && o <= 1024) by (nonlinear_arith)
            requires
                p * o <= 1024,
                p >= 1,
                o >= 1,
        ;
        assert(o * c <= 1024 * c) by (nonlinear_arith)
            requires
                o <= 1024,
                c >= 0,
        ;
    }
    let ghost row_bound = o * c;
    let mut acc: i128 = 0;
    let mut a: usize = 0;
    while a < p
        invariant
            a <= p,
            p <= 1024,
            o <= 1024,
            n <= 1024,
            x == MAX_MAGNITUDE,
            p * (o * r * x) == n * x,
            o * (p * r * x) == n * x,
            (p * o) * (r * x) == n * x,
            p * o <= 1024,
            -(n * x) <= t <= n * x,
            t == grand_total(obs@, p as int, o as int),
            sums@.len() == p,
            forall|i: int| 0 <= i < p ==> (#[trigger] sums@[i])@.len() == o,
            forall|i: int, j: int|
                0 <= i < p && 0 <= j < o ==> #[trigger] sums@[i]@[j] == cell_sum(obs@, i, j)
                    && -(r * x) <= cell_sum(obs@, i, j) <= r * x,
            parts@.len() == p,
            forall|i: int| 0 <= i < p ==> #[trigger] parts@[i] == part_total(obs@, o as int, i)
                && -(o * r * x) <= parts@[i] <= o * r * x,
            operators@.len() == o,
            forall|j: int| 0 <= j < o ==> #[trigger] operators@[j] == operator_total(obs@, p as int, j)
                && -(p * r * x) <= operators@[j] <= p * r * x,
            0 <= c <= 0x1_0000_0000_0000_0000_0000_0000,
            c == (4 * n * x) * (4 * n * x),
            row_bound == o * c,
            o * c <= 1024 * c,
            acc == sum(|i: int| sum(|j: int| sq(interaction_term(obs@, p as int, o as int, i, j)), o as int), a as int),
            0 <= acc <= a * row_bound,
        decreases p - a,
    {
        let mut row: i128 = 0;
        let mut b: usize = 0;
        while b < o
            invariant
                a < p,
                b <= o,
                p <= 1024,
                o <= 1024,
                n <= 1024,
                x == MAX_MAGNITUDE,
                p * (o * r * x) == n * x,
                o * (p * r * x) == n * x,
                (p * o) * (r * x) == n * x,
                p * o <= 1024,
                -(n * x) <= t <= n * x,
                t == grand_total(obs@, p as int, o as int),
                sums@.len() == p,
                forall|i: int| 0 <= i < p ==> (#[trigger] sums@[i])@.len() == o,
                forall|i: int, j: int|
                    0 <= i < p && 0 <= j < o ==> #[trigger] sums@[i]@[j] == cell_sum(obs@, i, j)
                        && -(r * x) <= cell_sum(obs@, i, j) <= r * x,
                parts@.len() == p,
                forall|i: int| 0 <= i < p ==> #[trigger] parts@[i] == part_total(obs@, o as int, i)
                    && -(o * r * x) <= parts@[i] <= o * r * x,
                operators@.len() == o,
                forall|j: int| 0 <= j < o ==> #[trigger] operators@[j] == operator_total(obs@, p as int, j)
                    && -(p * r * x) <= operators@[j] <= p * r * x,
                0 <= c <= 0x1_0000_0000_0000_0000_0000_0000,
                c == (4 * n * x) * (4 * n * x),
                row == sum(|j: int| sq(interaction_term(obs@, p as int, o as int, a as int, j)), b as int),
                0 <= row <= b * c,
            decreases o - b,
        {
            let cs = sums[a][b];
            let pt = parts[a];
            let ot = operators[b];
            proof {
                assert(sums@[a as int]@[b as int] == cell_sum(obs@, a as int, b as int));
                assert(parts@[a as int] == part_total(obs@, o as int, a as int));
                assert(operators@[b as int] == operator_total(obs@, p as int, b as int));
                lemma_mul_bound((p * o) as int, (p * o) as int, cs as int, r * x);
                lemma_mul_bound(p as int, p as int, pt as int, o * r * x);
                lemma_mul_bound(o as int, o as int, ot as int, p * r * x);
                lemma_sq_bound(interaction_term(obs@, p as int, o as int, a as int, b as int), 4 * n * x);
                lemma_step(b as int, c, 1024);
            }
            let e = (p as i128) * (o as i128) * cs - (p as i128) * pt - (o as i128) * ot + t;
            assert(e == interaction_term(obs@, p as int, o as int, a as int, b as int));
            row = row + e * e;
            b = b + 1;
        }
        proof {
            lemma_step(a as int, row_bound, 1024);
        }
        acc = acc + row;
        a = a + 1;
    }
    proof {
        assert(r * acc <= 16 * n * n * n * x * x && 0 <= r * acc) by (nonlinear_arith)
            requires
                0 <= acc <= a * row_bound,
                a == p,
                row_bound == o * c,
                c == (4 * n * x) * (4 * n * x),
                n == p * o * r,
                r >= 0,
        ;
        lemma_cube_bound(n, 16);
    }
    (r as i128) * acc
}

/// Degrees of freedom of the parts: `p - 1`.
pub open spec fn dof_parts(p: int) -> int {
    p - 1
}

/// Degrees of freedom of the operators: `o - 1`.
pub open spec fn dof_operators(o: int) -> int {
    o - 1
}

/// Degrees of freedom of the interaction: `(p - 1) * (o - 1)`.
pub open spec fn dof_interaction(p: int, o: int) -> int {
    (p - 1) * (o - 1)
}

/// Degrees of freedom within cells: `p * o * (r - 1)`.
pub open spec fn dof_within(obs: Seq<Observation>, p: int, o: int) -> int {
    p * o * (replicates(obs) - 1)
}

/// The interaction is kept as a source of its own when its F ratio against
/// the within-cell mean square reaches `critical`; it is pooled into
/// repeatability when it falls below, or when there are no within-cell degrees
/// of freedom (a single replicate) to test it against.
pub open spec fn keeps_interaction(obs: Seq<Observation>, p: int, o: int, critical: Scalar) -> bool {
    let de = dof_within(obs, p, o);
    de > 0 && q_interaction(obs, p, o) * de * critical.den >= critical.num * q_repeatability(obs, p, o) * dof_interaction(p, o)
}

/// Scaled sum of squares of repeatability as reported: within cells, plus the
/// interaction when it is pooled.
pub open spec fn q_reported_repeatability(obs: Seq<Observation>, p: int, o: int, critical: Scalar) -> int {
    if keeps_interaction(obs, p, o, critical) {
        q_repeatability(obs, p, o)
    } else {
        q_repeatability(obs, p, o) + q_interaction(obs, p, o)
    }
}

/// Degrees of freedom of repeatability as reported.
pub open spec fn dof_reported_repeatability(obs: Seq<Observation>, p: int, o: int, critical: Scalar) -> int {
    if keeps_interaction(obs, p, o, critical) {
        dof_within(obs, p, o)
    } else {
        dof_within(obs, p, o) + dof_interaction(p, o)
    }
}

/// Scaled sum of squares of the error term of the main effects: the
/// interaction when it is kept, the pooled repeatability otherwise.
pub open spec fn q_error(obs: Seq<Observation>, p: int, o: int, critical: Scalar) -> int {
    if keeps_interaction(obs, p, o, critical) {
        q_interaction(obs, p, o)
    } else {
        q_reported_repeatability(obs, p, o, critical)
    }
}

/// Degrees of freedom of the error term of the main effects.
pub open spec fn dof_error(obs: Seq<Observation>, p: int, o: int, critical: Scalar) -> int {
    if keeps_interaction(obs, p, o, critical) {
        dof_interaction(p, o)
    } else {
        dof_reported_repeatability(obs, p, o, critical)
    }
}

/// The F ratio `(q / d) / (q_den / d_den)`, undefined when the denominator
/// mean square is zero.
pub open spec fn f_ratio(q: int, d: int, q_den: int, d_den: int) -> Option<(int, int)> {
    if q_den == 0 {
        None
    } else {
        Some((q * d_den, q_den * d))
    }
}

pub open spec fn ratio_is(r: Ratio, num: int, den: int) -> bool {
    r.num == num && r.den == den
}

pub open spec fn opt_ratio_is(r: Option<Ratio>, v: Option<(int, int)>) -> bool {
    match (r, v) {
        (Some(r), Some(v)) => ratio_is(r, v.0, v.1),
        (None, None) => true,
        _ => false,
    }
}

/// The two-factor ANOVA table of a balanced crossed design.
///
/// Every sum of squares is `q / (n * n)` and every mean square
/// `q / (n * n * dof)`, with `q` the scaled sum of squares of the source.
pub struct AnovaTable {
    pub n_parts: usize,
    pub n_operators: usize,
    pub replicates: usize,
    pub observations: usize,
    pub dof_parts: usize,
    pub dof_operators: usize,
    pub dof_part_operator: usize,
    pub dof_repeatability: usize,
    pub dof_total: usize,
    pub sumsq_parts: Ratio,
    pub sumsq_operators: Ratio,
    pub sumsq_part_operator: Ratio,
    pub sumsq_repeatability: Ratio,
    pub sumsq_total: Ratio,
    pub meansq_parts: Ratio,
    pub meansq_operators: Ratio,
    pub meansq_part_operator: Ratio,
    pub meansq_repeatability: Ratio,
    pub f_parts: Option<Ratio>,
    pub f_operators: Option<Ratio>,
    pub f_part_operator: Option<Ratio>,
    pub use_interaction: bool,
}

impl AnovaTable {
    /// `self` is the ANOVA table of the accepted design `obs` of `p` parts and
    /// `o` operators, with the interaction tested against `critical`.
    ///
    /// The interaction row always holds the interaction's own figures, and
    /// `f_part_operator` compares it with the within-cell mean square; the
    /// repeatability row and the F ratios of the main effects follow the
    /// pooling decision.
    pub open spec fn describes(&self, obs: Seq<Observation>, p: int, o: int, critical: Scalar) -> bool {
        let n = obs.len() as int;
        let nn = n * n;
        &&& self.n_parts == p
        &&& self.n_operators == o
        &&& self.replicates == replicates(obs)
        &&& self.observations == n
        &&& self.use_interaction == keeps_interaction(obs, p, o, critical)
        &&& self.dof_parts == dof_parts(p)
        &&& self.dof_operators == dof_operators(o)
        &&& self.dof_part_operator == dof_interaction(p, o)
        &&& self.dof_repeatability == dof_reported_repeatability(obs, p, o, critical)
        &&& self.dof_total == n - 1
        &&& ratio_is(self.sumsq_parts, q_parts(obs, p, o), nn)
        &&& ratio_is(self.sumsq_operators, q_operators(obs, p, o), nn)
        &&& ratio_is(self.sumsq_part_operator, q_interaction(obs, p, o), nn)
        &&& ratio_is(self.sumsq_repeatability, q_reported_repeatability(obs, p, o, critical), nn)
        &&& ratio_is(self.sumsq_total, q_total(obs, p, o), nn)
        &&& ratio_is(self.meansq_parts, q_parts(obs, p, o), nn * dof_parts(p))
        &&& ratio_is(self.meansq_operators, q_operators(obs, p, o), nn * dof_operators(o))
        &&& ratio_is(self.meansq_part_operator, q_interaction(obs, p, o), nn * dof_interaction(p, o))
        &&& ratio_is(
            self.meansq_repeatability,
            q_reported_repeatability(obs, p, o, critical),
            nn * dof_reported_repeatability(obs, p, o, critical),
        )
        &&& opt_ratio_is(
            self.f_parts,
            f_ratio(q_parts(obs, p, o), dof_parts(p), q_error(obs, p, o, critical), dof_error(obs, p, o, critical)),
        )
        &&& opt_ratio_is(
            self.f_operators,
            f_ratio(q_operators(obs, p, o), dof_operators(o), q_error(obs, p, o, critical), dof_error(obs, p, o, critical)),
        )
        &&& opt_ratio_is(
            self.f_part_operator,
            if dof_within(obs, p, o) > 0 {
                f_ratio(q_interaction(obs, p, o), dof_interaction(p, o), q_repeatability(obs, p, o), dof_within(obs, p, o))
            } else {
                None
            },
        )
    }

    /// The structure every table of an accepted design has: the sizes of the
    /// design, its degrees of freedom, and bounds on its sums of squares.
    pub open spec fn wf(&self) -> bool {
        let p = self.n_parts as int;
        let o = self.n_operators as int;
        let r = self.replicates as int;
        let n = self.observations as int;
        let within = p * o * (r - 1);
        &&& p >= 2
        &&& o >= 2
        &&& r >= 1
        &&& n == p * o * r
        &&& n <= MAX_OBSERVATIONS
        &&& self.dof_total == n - 1
        &&& self.dof_parts == p - 1
        &&& self.dof_operators == o - 1
        &&& self.dof_part_operator == (p - 1) * (o - 1)
        &&& self.dof_repeatability == if self.use_interaction { within } else { within + (p - 1) * (o - 1) }
        &&& self.use_interaction ==> within > 0
        &&& 0 <= self.sumsq_parts.num <= q_bound()
        &&& 0 <= self.sumsq_operators.num <= q_bound()
        &&& 0 <= self.sumsq_part_operator.num <= q_bound()
        &&& 0 <= self.sumsq_repeatability.num <= 2 * q_bound()
        &&& self.use_interaction ==> self.sumsq_repeatability.num <= q_bound()
    }

    /// The ANOVA table of a grouped dataset, or why its design is refused.
    ///
    /// `critical` is the critical value of the F distribution against which
    /// the interaction is tested (by convention at significance 0.25 on the
    /// interaction and within-cell degrees of freedom).
    pub fn from_dataset(ds: &GroupedDataset, critical: Scalar) -> (res: Result<AnovaTable, DesignError>)
        requires
            indices_in(ds.observations@, ds.parts@.len() as int, ds.operators@.len() as int),
        ensures
            match res {
                Ok(t) => design_error(ds.observations@, ds.parts@.len() as int, ds.operators@.len() as int) is None
                    && t.wf() && t.describes(ds.observations@, ds.parts@.len() as int, ds.operators@.len() as int, critical),
                Err(e) => design_error(ds.observations@, ds.parts@.len() as int, ds.operators@.len() as int) == Some(e),
            },
    {
        anova_of(&ds.observations, ds.parts.len(), ds.operators.len(), critical)
    }
}

/// The ANOVA table of the observations of a `p` by `o` design.
pub fn anova_of(obs: &Vec<Observation>, p: usize, o: usize, critical: Scalar) -> (res: Result<AnovaTable, DesignError>)
    requires
        indices_in(obs@, p as int, o as int),
    ensures
        match res {
            Ok(t) => design_error(obs@, p as int, o as int) is None && t.wf() && t.describes(obs@, p as int, o as int, critical),
            Err(e) => design_error(obs@, p as int, o as int) == Some(e),
        },
{
    let n = obs.len();
    if n > MAX_OBSERVATIONS {
        return Err(DesignError::TooManyObservations);
    }
    if !all_values_in_range(obs) {
        return Err(DesignError::MeasurementOutOfRange);
    }
    if p < 2 {
        return Err(DesignError::TooFewParts);
    }
    if o < 2 {
        return Err(DesignError::TooFewOperators);
    }
    let (counts, sums) = cell_table(obs, p, o);
    if let Some(e) = cell_problem(&counts, Ghost(obs@), p, o) {
        return Err(e);
    }
    let r = counts[0][0];
    let ghost x = MAX_MAGNITUDE as int;
    proof {
        lemma_design_size(obs@, p as int, o as int);
        assert forall|a: int, b: int| 0 <= a < p && 0 <= b < o implies #[trigger] sums@[a]@[b] == cell_sum(obs@, a, b)
            && -(r * x) <= cell_sum(obs@, a, b) <= r * x by {
            assert(counts@[a]@[b] == cell_count(obs@, a, b));
            assert(!has_uneven_cell(obs@, p as int, o as int));
        }
    }
    let (parts, operators, t) = margins(&sums, Ghost(obs@), p, o);
    let q_t = total_squares(obs, p, o, t);
    let q_e = repeatability_squares(obs, &sums, p, o, r);
    let q_p = parts_squares(&parts, Ghost(obs@), p, o, r, t);
    let q_o = operators_squares(&operators, Ghost(obs@), p, o, r, t);
    assert forall|a: int, b: int| 0 <= a < p && 0 <= b < o implies #[trigger] sums@[a]@[b] == cell_sum(obs@, a, b)
        && -(r * MAX_MAGNITUDE) <= cell_sum(obs@, a, b) <= r * MAX_MAGNITUDE by {
        assert(counts@[a]@[b] == cell_count(obs@, a, b));
        assert(!has_uneven_cell(obs@, p as int, o as int));
    }
    let q_i = interaction_squares(&sums, &parts, &operators, Ghost(obs@), p, o, r, t);
    proof {
        assert(p * o <= n && r <= n) by (nonlinear_arith)
            requires
                n == p * o * r,
                p >= 2,
                o >= 2,
                r >= 1,
        ;
        assert((p - 1) * (o - 1) <= n && p * o * (r - 1) <= n) by (nonlinear_arith)
            requires
                n == p * o * r,
                p >= 2,
                o >= 2,
                r >= 1,
        ;
        assert((p - 1) * (o - 1) >= 1) by (nonlinear_arith)
            requires
                p >= 2,
                o >= 2,
        ;
        assert(p * o * (r - 1) >= 0) by (nonlinear_arith)
            requires
                p >= 2,
                o >= 2,
                r >= 1,
        ;
    }
    let d_p = p - 1;
    let d_o = o - 1;
    let d_i = (p - 1) * (o - 1);
    let d_e = p * o * (r - 1);
    assert((n as int) * (n as int) <= 1048576) by (nonlinear_arith)
        requires
            n <= 1024,
    ;
    let nn = (n as i128) * (n as i128);
    let ghost big = q_bound();
    proof {
        assert(big == 0x4_0000_0000_0000_0000_0000);
        assert(critical.num * q_e <= 0x1_0000_0000 * big && 0 <= critical.num * q_e) by (nonlinear_arith)
            requires
                0 <= q_e <= big,
                0 <= critical.num < 0x1_0000_0000,
        ;
        assert(p <= 1024 && o <= 1024) by (nonlinear_arith)
            requires
                p * o <= n,
                n <= 1024,
                p >= 2,
                o >= 2,
        ;
        assert(q_i * d_e <= big * 1024 && q_e * d_i <= big * 1024 && 0 <= q_e * d_i) by (nonlinear_arith)
            requires
                0 <= q_i <= big,
                0 <= q_e <= big,
                0 <= d_e <= 1024,
                0 <= d_i <= 1024,
        ;
        assert(nn <= 1048576) by (nonlinear_arith)
            requires
                nn == n * n,
                n <= 1024,
        ;
        assert(q_i * d_e * critical.den <= big * 1024 * 0x1_0000_0000) by (nonlinear_arith)
            requires
                0 <= q_i <= big,
                0 <= d_e <= 1024,
                0 <= critical.den < 0x1_0000_0000,
        ;
        assert(critical.num * q_e * d_i <= big * 1024 * 0x1_0000_0000) by (nonlinear_arith)
            requires
                0 <= q_e <= big,
                0 <= d_i <= 1024,
                0 <= critical.num < 0x1_0000_0000,
        ;
    }
    let use_interaction = d_e > 0 && q_i * (d_e as i128) * (critical.den as i128) >= (critical.num as i128) * q_e * (d_i as i128);
    let (q_rep, d_rep) = if use_interaction { (q_e, d_e) } else { (q_e + q_i, d_e + d_i) };
    let (q_err, d_err) = if use_interaction { (q_i, d_i) } else { (q_rep, d_rep) };
    proof {
        assert(d_rep >= 1);
        assert(nn * d_p <= 1048576 * 1024 && nn * d_o <= 1048576 * 1024 && nn * d_i <= 1048576 * 1024
            && nn * d_rep <= 1048576 * 2048) by (nonlinear_arith)
            requires
                0 <= nn <= 1048576,
                0 <= d_p <= 1024,
                0 <= d_o <= 1024,
                0 <= d_i <= 1024,
                0 <= d_rep <= 2048,
        ;
        assert(q_p * d_err <= 2 * big * 2048 && q_o * d_err <= 2 * big * 2048 && q_err * d_p <= 2 * big * 2048
            && q_err * d_o <= 2 * big * 2048 && q_i * d_e <= 2 * big * 2048 && q_e * d_i <= 2 * big * 2048
            && 0 <= q_p * d_err && 0 <= q_o * d_err && 0 <= q_err * d_p && 0 <= q_err * d_o && 0 <= q_i * d_e
            && 0 <= q_e * d_i) by (nonlinear_arith)
            requires
                0 <= q_p <= big,
                0 <= q_o <= big,
                0 <= q_i <= big,
                0 <= q_e <= big,
                0 <= q_err <= 2 * big,
                0 <= d_p <= 1024,
                0 <= d_o <= 1024,
                0 <= d_i <= 1024,
                0 <= d_e <= 1024,
                0 <= d_err <= 2048,
        ;
    }
    let f_parts = if q_err == 0 {
        None
    } else {
        Some(Ratio { num: q_p * (d_err as i128), den: q_err * (d_p as i128) })
    };
    let f_operators = if q_err == 0 {
        None
    } else {
        Some(Ratio { num: q_o * (d_err as i128), den: q_err * (d_o as i128) })
    };
    let f_part_operator = if d_e == 0 || q_e == 0 {
        None
    } else {
        Some(Ratio { num: q_i * (d_e as i128), den: q_e * (d_i as i128) })
    };
    Ok(AnovaTable {
        n_parts: p,
        n_operators: o,
        replicates: r,
        observations: n,
        dof_parts: d_p,
        dof_operators: d_o,
        dof_part_operator: d_i,
        dof_repeatability: d_rep,
        dof_total: n - 1,
        sumsq_parts: Ratio { num: q_p, den: nn },
        sumsq_operators: Ratio { num: q_o, den: nn },
        sumsq_part_operator: Ratio { num: q_i, den: nn },
        sumsq_repeatability: Ratio { num: q_rep, den: nn },
        sumsq_total: Ratio { num: q_t, den: nn },
        meansq_parts: Ratio { num: q_p, den: nn * (d_p as i128) },
        meansq_operators: Ratio { num: q_o, den: nn * (d_o as i128) },
        meansq_part_operator: Ratio { num: q_i, den: nn * (d_i as i128) },
        meansq_repeatability: Ratio { num: q_rep, den: nn * (d_rep as i128) },
        f_parts,
        f_operators,
        f_part_operator,
        use_interaction,
    })
}

/// The degrees of freedom of parts, operators, interaction and repeatability
/// (before pooling) add up to `n - 1`.
pub proof fn lemma_dof_additivity(obs: Seq<Observation>, p: int, o: int)
    requires
        accepted(obs, p, o),
    ensures
        dof_parts(p) + dof_operators(o) + dof_interaction(p, o) + dof_within(obs, p, o) == obs.len() - 1,
{
    lemma_design_size(obs, p, o);
    let r = replicates(obs);
    assert((p - 1) + (o - 1) + (p - 1) * (o - 1) + p * o * (r - 1) == p * o * r - 1) by (nonlinear_arith);
}

/// In a table as reported the degrees of freedom of the rows shown add up to
/// the total: the interaction row is shown when kept, and folded into
/// repeatability when pooled.
pub proof fn lemma_reported_dof_additivity(t: AnovaTable)
    requires
        t.wf(),
    ensures
        t.use_interaction ==> t.dof_parts + t.dof_operators + t.dof_part_operator + t.dof_repeatability == t.dof_total,
        !t.use_interaction ==> t.dof_parts + t.dof_operators + t.dof_repeatability == t.dof_total,
{
    let p = t.n_parts as int;
    let o = t.n_operators as int;
    let r = t.replicates as int;
    assert((p - 1) + (o - 1) + (p - 1) * (o - 1) + p * o * (r - 1) == p * o * r - 1) by (nonlinear_arith);
}

} // verus!

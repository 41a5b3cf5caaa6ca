//! The analysis-of-variance identity: the sums of squares of parts, operators,
//! interaction and repeatability add up to the total sum of squares.
use vstd::prelude::*;
use crate::anova::{
    accepted, cell_count, cell_sum, grand_total, in_cell, indices_in, interaction_term, lemma_design_size, operator_total,
    part_total, q_interaction, q_operators, q_parts, q_repeatability, q_total, replicates, has_uneven_cell,
};
use crate::anova::AnovaTable;
use crate::dataset::Observation;
use crate::fraction::Scalar;
use crate::sums::{
    sq, sum, lemma_sum_by_class, lemma_sum_const, lemma_sum_ext, lemma_sum_linear, lemma_sum_swap,
    lemma_sum_weighted_square,
};

verus! {

/// `sum_b g(a, b)` over `b < o`.
pub open spec fn grid_row(g: spec_fn(int, int) -> int, o: int, a: int) -> int {
    sum(|b: int| g(a, b), o)
}

/// `sum_a sum_b g(a, b)` over the `p` by `o` grid.
pub open spec fn grid_sum(g: spec_fn(int, int) -> int, p: int, o: int) -> int {
    sum(|a: int| grid_row(g, o, a), p)
}

/// The part of `sum_k f(k)` that comes from the observations of cell `(a, b)`.
pub open spec fn in_cell_sum(obs: Seq<Observation>, f: spec_fn(int) -> int, a: int, b: int) -> int {
    sum(|k: int| if in_cell(obs[k], a, b) { f(k) } else { 0int }, obs.len() as int)
}

pub open spec fn value_of(obs: Seq<Observation>) -> spec_fn(int) -> int {
    |k: int| obs[k].value as int
}

proof fn lemma_grid_ext(g: spec_fn(int, int) -> int, h: spec_fn(int, int) -> int, p: int, o: int)
    requires
        forall|a: int, b: int| 0 <= a < p && 0 <= b < o ==> #[trigger] g(a, b) == h(a, b),
    ensures
        grid_sum(g, p, o) == grid_sum(h, p, o),
{
    assert forall|a: int| 0 <= a < p implies #[trigger] grid_row(g, o, a) == grid_row(h, o, a) by {
        lemma_sum_ext(|b: int| g(a, b), |b: int| h(a, b), o);
    }
    lemma_sum_ext(|a: int| grid_row(g, o, a), |a: int| grid_row(h, o, a), p);
}

/// Every observation lies in one cell, so a sum over the observations is the
/// sum over the cells of its parts in each cell.
proof fn lemma_split_by_cell(obs: Seq<Observation>, p: int, o: int, f: spec_fn(int) -> int)
    requires
        p >= 0,
        o >= 0,
        indices_in(obs, p, o),
    ensures
        sum(f, obs.len() as int) == grid_sum(|a: int, b: int| in_cell_sum(obs, f, a, b), p, o),
{
    let n = obs.len() as int;
    let part_of = |k: int| obs[k].part as int;
    let op_of = |k: int| obs[k].operator as int;
    let g = |a: int, b: int| in_cell_sum(obs, f, a, b);
    let by_part = |a: int| sum(|k: int| if part_of(k) == a { f(k) } else { 0int }, n);
    lemma_sum_by_class(part_of, f, p, n);
    assert forall|a: int| 0 <= a < p implies #[trigger] grid_row(g, o, a) == by_part(a) by {
        let wa = |k: int| if part_of(k) == a { f(k) } else { 0int };
        lemma_sum_by_class(op_of, wa, o, n);
        assert forall|b: int| 0 <= b < o implies #[trigger] g(a, b) == sum(
            |k: int| if op_of(k) == b { wa(k) } else { 0int },
            n,
        ) by {
            lemma_sum_ext(
                |k: int| if in_cell(obs[k], a, b) { f(k) } else { 0int },
                |k: int| if op_of(k) == b { wa(k) } else { 0int },
                n,
            );
        }
        lemma_sum_ext(|b: int| g(a, b), |b: int| sum(|k: int| if op_of(k) == b { wa(k) } else { 0int }, n), o);
        lemma_sum_ext(wa, |k: int| if part_of(k) == a { f(k) } else { 0int }, n);
    }
    lemma_sum_ext(|a: int| grid_row(g, o, a), by_part, p);
}

/// The observations add up to the grand total.
proof fn lemma_observations_total(obs: Seq<Observation>, p: int, o: int)
    requires
        p >= 0,
        o >= 0,
        indices_in(obs, p, o),
    ensures
        sum(value_of(obs), obs.len() as int) == grand_total(obs, p, o),
{
    let x = value_of(obs);
    let g = |a: int, b: int| in_cell_sum(obs, x, a, b);
    lemma_split_by_cell(obs, p, o, x);
    assert forall|a: int| 0 <= a < p implies #[trigger] grid_row(g, o, a) == part_total(obs, o, a) by {
        assert forall|b: int| 0 <= b < o implies #[trigger] g(a, b) == cell_sum(obs, a, b) by {
            lemma_sum_ext(
                |k: int| if in_cell(obs[k], a, b) { x(k) } else { 0int },
                |k: int| if in_cell(obs[k], a, b) { obs[k].value as int } else { 0int },
                obs.len() as int,
            );
        }
        lemma_sum_ext(|b: int| g(a, b), |b: int| cell_sum(obs, a, b), o);
    }
    lemma_sum_ext(|a: int| grid_row(g, o, a), |a: int| part_total(obs, o, a), p);
}

/// The operator totals add up to the grand total.
proof fn lemma_operator_totals(obs: Seq<Observation>, p: int, o: int)
    requires
        p >= 0,
        o >= 0,
    ensures
        sum(|b: int| operator_total(obs, p, b), o) == grand_total(obs, p, o),
{
    let c = |a: int, b: int| cell_sum(obs, a, b);
    lemma_sum_swap(c, p, o);
    assert forall|a: int| 0 <= a < p implies sum(|b: int| c(a, b), o) == #[trigger] part_total(obs, o, a) by {
        lemma_sum_ext(|b: int| c(a, b), |b: int| cell_sum(obs, a, b), o);
    }
    assert forall|b: int| 0 <= b < o implies sum(|a: int| c(a, b), p) == #[trigger] operator_total(obs, p, b) by {
        lemma_sum_ext(|a: int| c(a, b), |a: int| cell_sum(obs, a, b), p);
    }
    lemma_sum_ext(|a: int| sum(|b: int| c(a, b), o), |a: int| part_total(obs, o, a), p);
    lemma_sum_ext(|b: int| sum(|a: int| c(a, b), p), |b: int| operator_total(obs, p, b), o);
}

/// `sum_i (c * y_i - s)^2 = c^2 sum_i y_i^2 - 2 c s sum_i y_i + m s^2`.
proof fn lemma_squares_about(y: spec_fn(int) -> int, m: int, c: int, s: int)
    requires
        m >= 0,
    ensures
        sum(|i: int| sq(c * y(i) - s), m) == c * c * sum(|i: int| sq(y(i)), m) - 2 * c * s * sum(y, m) + s * s * m,
{
    let one = |i: int| 1int;
    lemma_sum_weighted_square(one, y, c, s, m);
    lemma_sum_ext(|k: int| one(k) * sq(c * y(k) - s), |i: int| sq(c * y(i) - s), m);
    lemma_sum_ext(|k: int| one(k) * sq(y(k)), |i: int| sq(y(i)), m);
    lemma_sum_ext(|k: int| one(k) * y(k), y, m);
    lemma_sum_const(one, 1, m);
}

/// `n * n * SS_total = n * (n * sum_k x_k^2 - T^2)`.
proof fn lemma_q_total(obs: Seq<Observation>, p: int, o: int)
    requires
        p >= 0,
        o >= 0,
        indices_in(obs, p, o),
    ensures
        ({
            let n = obs.len() as int;
            let t = grand_total(obs, p, o);
            q_total(obs, p, o) == n * (n * sum(|k: int| sq(value_of(obs)(k)), n) - t * t)
        }),
{
    let n = obs.len() as int;
    let t = grand_total(obs, p, o);
    let x = value_of(obs);
    lemma_observations_total(obs, p, o);
    lemma_squares_about(x, n, n, t);
    lemma_sum_ext(|i: int| sq(n * x(i) - t), |k: int| sq(n * obs[k].value - t), n);
    let a = sum(|i: int| sq(x(i)), n);
    assert(n * n * a - 2 * n * t * t + t * t * n == n * (n * a - t * t)) by (nonlinear_arith);
}

/// `n * n * SS_parts = o * r * p * (p * sum_a P_a^2 - T^2)`.
proof fn lemma_q_parts(obs: Seq<Observation>, p: int, o: int)
    requires
        p >= 0,
    ensures
        ({
            let t = grand_total(obs, p, o);
            let sp = sum(|a: int| sq(part_total(obs, o, a)), p);
            q_parts(obs, p, o) == o * replicates(obs) * (p * (p * sp - t * t))
        }),
{
    let t = grand_total(obs, p, o);
    let y = |a: int| part_total(obs, o, a);
    lemma_squares_about(y, p, p, t);
    lemma_sum_ext(|i: int| sq(p * y(i) - t), |a: int| sq(p * part_total(obs, o, a) - t), p);
    lemma_sum_ext(|i: int| sq(y(i)), |a: int| sq(part_total(obs, o, a)), p);
    lemma_sum_ext(y, |a: int| part_total(obs, o, a), p);
    let sp = sum(|a: int| sq(part_total(obs, o, a)), p);
    assert(p * p * sp - 2 * p * t * t + t * t * p == p * (p * sp - t * t)) by (nonlinear_arith);
}

/// `n * n * SS_operators = p * r * o * (o * sum_b O_b^2 - T^2)`.
proof fn lemma_q_operators(obs: Seq<Observation>, p: int, o: int)
    requires
        p >= 0,
        o >= 0,
    ensures
        ({
            let t = grand_total(obs, p, o);
            let so = sum(|b: int| sq(operator_total(obs, p, b)), o);
            q_operators(obs, p, o) == p * replicates(obs) * (o * (o * so - t * t))
        }),
{
    let t = grand_total(obs, p, o);
    let y = |b: int| operator_total(obs, p, b);
    lemma_operator_totals(obs, p, o);
    lemma_squares_about(y, o, o, t);
    lemma_sum_ext(|i: int| sq(o * y(i) - t), |b: int| sq(o * operator_total(obs, p, b) - t), o);
    lemma_sum_ext(|i: int| sq(y(i)), |b: int| sq(operator_total(obs, p, b)), o);
    lemma_sum_ext(y, |b: int| operator_total(obs, p, b), o);
    let so = sum(|b: int| sq(operator_total(obs, p, b)), o);
    assert(o * o * so - 2 * o * t * t + t * t * o == o * (o * so - t * t)) by (nonlinear_arith);
}

proof fn lemma_grid_linear(g: spec_fn(int, int) -> int, h: spec_fn(int, int) -> int, u: int, v: int, p: int, o: int)
    ensures
        grid_sum(|a: int, b: int| u * g(a, b) + v * h(a, b), p, o) == u * grid_sum(g, p, o) + v * grid_sum(h, p, o),
{
    let lin = |a: int, b: int| u * g(a, b) + v * h(a, b);
    assert forall|a: int| 0 <= a < p implies #[trigger] grid_row(lin, o, a) == u * grid_row(g, o, a) + v * grid_row(
        h,
        o,
        a,
    ) by {
        lemma_sum_linear(|b: int| g(a, b), |b: int| h(a, b), u, v, o);
        lemma_sum_ext(|b: int| lin(a, b), |i: int| u * (|b: int| g(a, b))(i) + v * (|b: int| h(a, b))(i), o);
    }
    lemma_sum_linear(|a: int| grid_row(g, o, a), |a: int| grid_row(h, o, a), u, v, p);
    lemma_sum_ext(
        |a: int| grid_row(lin, o, a),
        |i: int| u * (|a: int| grid_row(g, o, a))(i) + v * (|a: int| grid_row(h, o, a))(i),
        p,
    );
}

/// Sum of the squared cell totals.
pub open spec fn cell_squares(obs: Seq<Observation>, p: int, o: int) -> int {
    grid_sum(|a: int, b: int| sq(cell_sum(obs, a, b)), p, o)
}

/// Sum of the squared observations.
pub open spec fn value_squares(obs: Seq<Observation>) -> int {
    sum(|k: int| sq(value_of(obs)(k)), obs.len() as int)
}

/// Within one cell of `r` observations with total `C`:
/// `sum_k (r * x_k - C)^2 = r * (r * sum_k x_k^2 - C^2)`.
proof fn lemma_cell_deviation(obs: Seq<Observation>, a: int, b: int, r: int)
    requires
        cell_count(obs, a, b) == r,
    ensures
        ({
            let c = cell_sum(obs, a, b);
            in_cell_sum(obs, |k: int| sq(r * obs[k].value - cell_sum(obs, obs[k].part as int, obs[k].operator as int)), a, b)
                == r * (r * in_cell_sum(obs, |k: int| sq(value_of(obs)(k)), a, b) - c * c)
        }),
{
    let n = obs.len() as int;
    let c = cell_sum(obs, a, b);
    let x = value_of(obs);
    let ind = |k: int| if in_cell(obs[k], a, b) { 1int } else { 0int };
    let f = |k: int| sq(r * obs[k].value - cell_sum(obs, obs[k].part as int, obs[k].operator as int));
    lemma_sum_weighted_square(ind, x, r, c, n);
    assert forall|k: int| 0 <= k < n implies (#[trigger] ind(k)) * sq(r * x(k) - c) == (
    if in_cell(obs[k], a, b) {
        f(k)
    } else {
        0int
    }) by {}
    lemma_sum_ext(
        |k: int| ind(k) * sq(r * x(k) - c),
        |k: int| if in_cell(obs[k], a, b) { f(k) } else { 0int },
        n,
    );
    assert forall|k: int| 0 <= k < n implies (#[trigger] ind(k)) * sq(x(k)) == (
    if in_cell(obs[k], a, b) {
        sq(x(k))
    } else {
        0int
    }) by {}
    lemma_sum_ext(
        |k: int| ind(k) * sq(x(k)),
        |k: int| if in_cell(obs[k], a, b) { (|k: int| sq(value_of(obs)(k)))(k) } else { 0int },
        n,
    );
    assert forall|k: int| 0 <= k < n implies (#[trigger] ind(k)) * x(k) == (
    if in_cell(obs[k], a, b) {
        obs[k].value as int
    } else {
        0int
    }) by {}
    lemma_sum_ext(
        |k: int| ind(k) * x(k),
        |k: int| if in_cell(obs[k], a, b) { obs[k].value as int } else { 0int },
        n,
    );
    let sa = in_cell_sum(obs, |k: int| sq(value_of(obs)(k)), a, b);
    assert(r * r * sa - 2 * r * c * c + c * c * r == r * (r * sa - c * c)) by (nonlinear_arith);
}

/// `sum_k (r * x_k - C_k)^2 = r * (r * sum_k x_k^2 - sum_ab C_ab^2)` in an accepted design.
proof fn lemma_within_cells(obs: Seq<Observation>, p: int, o: int)
    requires
        accepted(obs, p, o),
    ensures
        sum(
            |k: int| sq(replicates(obs) * obs[k].value - cell_sum(obs, obs[k].part as int, obs[k].operator as int)),
            obs.len() as int,
        ) == replicates(obs) * (replicates(obs) * value_squares(obs) - cell_squares(obs, p, o)),
{
    let r = replicates(obs);
    let f = |k: int| sq(r * obs[k].value - cell_sum(obs, obs[k].part as int, obs[k].operator as int));
    let sqx = |k: int| sq(value_of(obs)(k));
    lemma_split_by_cell(obs, p, o, f);
    lemma_split_by_cell(obs, p, o, sqx);
    let gf = |a: int, b: int| in_cell_sum(obs, f, a, b);
    let gx = |a: int, b: int| in_cell_sum(obs, sqx, a, b);
    let gc = |a: int, b: int| sq(cell_sum(obs, a, b));
    assert forall|a: int, b: int| 0 <= a < p && 0 <= b < o implies #[trigger] gf(a, b) == r * r * gx(a, b) + (-r) * gc(
        a,
        b,
    ) by {
        assert(!has_uneven_cell(obs, p, o));
        assert(cell_count(obs, a, b) == r);
        lemma_cell_deviation(obs, a, b, r);
        let c = cell_sum(obs, a, b);
        assert(r * (r * gx(a, b) - c * c) == r * r * gx(a, b) + (-r) * (c * c)) by (nonlinear_arith);
    }
    lemma_grid_ext(gf, |a: int, b: int| (r * r) * gx(a, b) + (-r) * gc(a, b), p, o);
    lemma_grid_linear(gx, gc, r * r, -r, p, o);
    let vs = value_squares(obs);
    let cs = cell_squares(obs, p, o);
    assert(r * r * vs + (-r) * cs == r * (r * vs - cs)) by (nonlinear_arith);
}

/// `n` times the deviation of a part mean from the grand mean.
pub open spec fn part_dev(obs: Seq<Observation>, p: int, o: int, a: int) -> int {
    p * part_total(obs, o, a) - grand_total(obs, p, o)
}

/// `n` times the deviation of a cell mean from its operator mean.
pub open spec fn cell_dev(obs: Seq<Observation>, p: int, o: int, a: int, b: int) -> int {
    p * o * cell_sum(obs, a, b) - o * operator_total(obs, p, b)
}

/// `sum_b u_ab^2` for one part.
pub open spec fn dev_row(obs: Seq<Observation>, p: int, o: int, a: int) -> int {
    sum(|b: int| sq(cell_dev(obs, p, o, a, b)), o)
}

/// Sum of the squared part totals.
pub open spec fn part_squares(obs: Seq<Observation>, p: int, o: int) -> int {
    sum(|a: int| sq(part_total(obs, o, a)), p)
}

/// Sum of the squared operator totals.
pub open spec fn operator_squares(obs: Seq<Observation>, p: int, o: int) -> int {
    sum(|b: int| sq(operator_total(obs, p, b)), o)
}

proof fn lemma_part_devs(obs: Seq<Observation>, p: int, o: int)
    requires
        p >= 0,
    ensures
        sum(|a: int| sq(part_dev(obs, p, o, a)), p) == p * (p * part_squares(obs, p, o) - grand_total(obs, p, o)
            * grand_total(obs, p, o)),
{
    let t = grand_total(obs, p, o);
    let y = |a: int| part_total(obs, o, a);
    lemma_squares_about(y, p, p, t);
    lemma_sum_ext(|i: int| sq(p * y(i) - t), |a: int| sq(part_dev(obs, p, o, a)), p);
    lemma_sum_ext(|i: int| sq(y(i)), |a: int| sq(part_total(obs, o, a)), p);
    lemma_sum_ext(y, |a: int| part_total(obs, o, a), p);
    let sp = part_squares(obs, p, o);
    assert(p * p * sp - 2 * p * t * t + t * t * p == p * (p * sp - t * t)) by (nonlinear_arith);
}

/// One row of the interaction: `sum_b e_ab^2 = sum_b u_ab^2 - o * d_a^2`, with
/// `u_ab` the cell deviation and `d_a` the part deviation.
proof fn lemma_interaction_row(obs: Seq<Observation>, p: int, o: int, a: int)
    requires
        p >= 0,
        o >= 0,
    ensures
        sum(|b: int| sq(interaction_term(obs, p, o, a, b)), o) == sum(|b: int| sq(cell_dev(obs, p, o, a, b)), o) - o
            * sq(part_dev(obs, p, o, a)),
{
    let t = grand_total(obs, p, o);
    let k = part_dev(obs, p, o, a);
    let y = |b: int| cell_dev(obs, p, o, a, b);
    let cs = |b: int| cell_sum(obs, a, b);
    let ot = |b: int| operator_total(obs, p, b);
    lemma_squares_about(y, o, 1, k);
    lemma_sum_linear(cs, ot, p * o, -o, o);
    assert forall|i: int| 0 <= i < o implies #[trigger] y(i) == (p * o) * cs(i) + (-o) * ot(i) by {
        assert((-o) * ot(i) == -(o * ot(i))) by (nonlinear_arith);
    }
    lemma_sum_ext(|i: int| (p * o) * cs(i) + (-o) * ot(i), y, o);
    lemma_sum_ext(cs, |b: int| cell_sum(obs, a, b), o);
    lemma_operator_totals(obs, p, o);
    lemma_sum_ext(ot, |b: int| operator_total(obs, p, b), o);
    let pt = part_total(obs, o, a);
    assert((p * o) * pt + (-o) * t == o * k) by (nonlinear_arith)
        requires
            k == p * pt - t,
    ;
    lemma_sum_ext(|i: int| sq(1 * y(i) - k), |b: int| sq(interaction_term(obs, p, o, a, b)), o);
    lemma_sum_ext(|i: int| sq(y(i)), |b: int| sq(cell_dev(obs, p, o, a, b)), o);
    let su = sum(|b: int| sq(cell_dev(obs, p, o, a, b)), o);
    assert(1 * 1 * su - 2 * 1 * k * (o * k) + k * k * o == su - o * sq(k)) by (nonlinear_arith);
}

/// `sum_ab u_ab^2 = p^2 o^2 sum_ab C_ab^2 - p o^2 sum_b O_b^2`.
proof fn lemma_cell_devs(obs: Seq<Observation>, p: int, o: int)
    requires
        p >= 0,
        o >= 0,
    ensures
        sum(|a: int| sum(|b: int| sq(cell_dev(obs, p, o, a, b)), o), p) == p * p * o * o * cell_squares(obs, p, o)
            - p * o * o * operator_squares(obs, p, o),
{
    let u2 = |a: int, b: int| sq(cell_dev(obs, p, o, a, b));
    lemma_sum_swap(u2, p, o);
    assert forall|a: int| 0 <= a < p implies sum(|b: int| u2(a, b), o) == #[trigger] dev_row(obs, p, o, a) by {
        lemma_sum_ext(|b: int| u2(a, b), |b: int| sq(cell_dev(obs, p, o, a, b)), o);
    }
    lemma_sum_ext(|a: int| sum(|b: int| u2(a, b), o), |a: int| dev_row(obs, p, o, a), p);
    lemma_sum_ext(|a: int| dev_row(obs, p, o, a), |a: int| sum(|b: int| sq(cell_dev(obs, p, o, a, b)), o), p);
    let c2 = |a: int, b: int| sq(cell_sum(obs, a, b));
    let colsq = |b: int| sum(|a: int| c2(a, b), p);
    let osq = |b: int| sq(operator_total(obs, p, b));
    assert forall|b: int| 0 <= b < o implies sum(|a: int| u2(a, b), p) == #[trigger] (p * p * o * o * colsq(b) + (-(p
        * o * o)) * osq(b)) by {
        let col = |a: int| cell_sum(obs, a, b);
        let ob = operator_total(obs, p, b);
        lemma_squares_about(col, p, p * o, o * ob);
        lemma_sum_ext(|i: int| sq((p * o) * col(i) - o * ob), |a: int| u2(a, b), p);
        lemma_sum_ext(|i: int| sq(col(i)), |a: int| c2(a, b), p);
        lemma_sum_ext(col, |a: int| cell_sum(obs, a, b), p);
        let s2 = colsq(b);
        assert((p * o) * (p * o) * s2 - 2 * (p * o) * (o * ob) * ob + (o * ob) * (o * ob) * p == p * p * o * o * s2
            + (-(p * o * o)) * (ob * ob)) by (nonlinear_arith);
    }
    lemma_sum_ext(
        |b: int| sum(|a: int| u2(a, b), p),
        |b: int| p * p * o * o * colsq(b) + (-(p * o * o)) * osq(b),
        o,
    );
    lemma_sum_linear(colsq, osq, p * p * o * o, -(p * o * o), o);
    lemma_sum_ext(|i: int| (p * p * o * o) * colsq(i) + (-(p * o * o)) * osq(i), |b: int| p * p * o * o * colsq(b) + (-(p
        * o * o)) * osq(b), o);
    lemma_sum_swap(c2, p, o);
    assert forall|a: int| 0 <= a < p implies #[trigger] grid_row(c2, o, a) == sum(|b: int| c2(a, b), o) by {}
    lemma_sum_ext(|a: int| grid_row(c2, o, a), |a: int| sum(|b: int| c2(a, b), o), p);
    lemma_sum_ext(osq, |b: int| sq(operator_total(obs, p, b)), o);
    let x = sum(colsq, o);
    let z = sum(osq, o);
    assert(sum(|a: int| sum(|b: int| sq(cell_dev(obs, p, o, a, b)), o), p) == sum(|b: int| sum(|a: int| u2(a, b), p), o));
    assert(sum(|b: int| sum(|a: int| u2(a, b), p), o) == p * p * o * o * x + (-(p * o * o)) * z);
    assert(x == cell_squares(obs, p, o));
    assert(z == operator_squares(obs, p, o));
    assert(p * p * o * o * x + (-(p * o * o)) * z == p * p * o * o * x - p * o * o * z) by (nonlinear_arith);
}

/// `n * n * SS_interaction = r * (p^2 o^2 sum C^2 - p o^2 sum O^2 - o p (p sum P^2 - T^2))`.
proof fn lemma_q_interaction(obs: Seq<Observation>, p: int, o: int)
    requires
        p >= 0,
        o >= 0,
    ensures
        ({
            let t = grand_total(obs, p, o);
            q_interaction(obs, p, o) == replicates(obs) * (p * p * o * o * cell_squares(obs, p, o) - p * o * o
                * operator_squares(obs, p, o) - o * (p * (p * part_squares(obs, p, o) - t * t)))
        }),
{
    let pd2 = |a: int| sq(part_dev(obs, p, o, a));
    let dr = |a: int| dev_row(obs, p, o, a);
    assert forall|a: int| 0 <= a < p implies sum(|b: int| sq(interaction_term(obs, p, o, a, b)), o) == #[trigger] dr(a)
        + (-o) * pd2(a) by {
        lemma_interaction_row(obs, p, o, a);
        assert((-o) * pd2(a) == -(o * pd2(a))) by (nonlinear_arith);
    }
    lemma_sum_ext(
        |a: int| sum(|b: int| sq(interaction_term(obs, p, o, a, b)), o),
        |a: int| dr(a) + (-o) * pd2(a),
        p,
    );
    lemma_sum_linear(dr, pd2, 1, -o, p);
    assert forall|a: int| 0 <= a < p implies #[trigger] dr(a) + (-o) * pd2(a) == 1 * dr(a) + (-o) * pd2(a) by {}
    lemma_sum_ext(|a: int| dr(a) + (-o) * pd2(a), |i: int| 1 * dr(i) + (-o) * pd2(i), p);
    lemma_cell_devs(obs, p, o);
    lemma_sum_ext(dr, |a: int| sum(|b: int| sq(cell_dev(obs, p, o, a, b)), o), p);
    lemma_part_devs(obs, p, o);
    lemma_sum_ext(pd2, |a: int| sq(part_dev(obs, p, o, a)), p);
    let t = grand_total(obs, p, o);
    let x = sum(pd2, p);
    assert(1 * sum(dr, p) + (-o) * x == sum(dr, p) - o * x) by (nonlinear_arith);
}

/// The sums of squares of parts, operators, interaction and repeatability
/// (before any pooling) add up to the total sum of squares, for every accepted
/// design. Each is stated as `n * n` times the sum of squares.
pub proof fn lemma_sum_of_squares_additivity(obs: Seq<Observation>, p: int, o: int)
    requires
        accepted(obs, p, o),
    ensures
        q_parts(obs, p, o) + q_operators(obs, p, o) + q_interaction(obs, p, o) + q_repeatability(obs, p, o)
            == q_total(obs, p, o),
{
    lemma_design_size(obs, p, o);
    lemma_q_total(obs, p, o);
    lemma_q_parts(obs, p, o);
    lemma_q_operators(obs, p, o);
    lemma_q_interaction(obs, p, o);
    lemma_within_cells(obs, p, o);
    let n = obs.len() as int;
    let r = replicates(obs);
    let t = grand_total(obs, p, o);
    let a = value_squares(obs);
    let sc = cell_squares(obs, p, o);
    let sp = part_squares(obs, p, o);
    let so = operator_squares(obs, p, o);
    let qp = q_parts(obs, p, o);
    let qo = q_operators(obs, p, o);
    let qi = q_interaction(obs, p, o);
    let qe = q_repeatability(obs, p, o);
    let qt = q_total(obs, p, o);
    let tt = t * t;
    let po = p * o;
    assert(n == p * o * r);
    let m_a = n * (n * a);
    let m_t = n * tt;
    let m_sc = n * (po * sc);
    let m_sp = n * (p * sp);
    let m_so = n * (o * so);
    assert(o * r * (p * (p * sp - tt)) == n * (p * sp - tt)) by (nonlinear_arith)
        requires
            n == p * o * r,
    ;
    assert(n * (p * sp - tt) == n * (p * sp) - n * tt) by (nonlinear_arith);
    assert(qp == m_sp - m_t);
    assert(p * r * (o * (o * so - tt)) == n * (o * so - tt)) by (nonlinear_arith)
        requires
            n == p * o * r,
    ;
    assert(n * (o * so - tt) == n * (o * so) - n * tt) by (nonlinear_arith);
    assert(qo == m_so - m_t);
    let u = p * p * o * o * sc;
    let v = p * o * o * so;
    let w = o * (p * (p * sp - tt));
    assert(r * (u - v - w) == r * u - r * v - r * w) by (nonlinear_arith);
    assert(r * u == n * (po * sc)) by (nonlinear_arith)
        requires
            n == p * o * r,
            po == p * o,
            u == p * p * o * o * sc,
    ;
    assert(r * v == n * (o * so)) by (nonlinear_arith)
        requires
            n == p * o * r,
            v == p * o * o * so,
    ;
    assert(r * w == n * (p * sp - tt)) by (nonlinear_arith)
        requires
            n == p * o * r,
            w == o * (p * (p * sp - tt)),
    ;
    assert(qi == m_sc - m_so - m_sp + m_t);
    assert(sq(po) == po * po);
    assert(po * po * (r * (r * a - sc)) == n * (n * a) - n * (po * sc)) by (nonlinear_arith)
        requires
            n == po * r,
    ;
    assert(qe == m_a - m_sc);
    assert(n * (n * a - tt) == n * (n * a) - n * tt) by (nonlinear_arith);
    assert(qt == m_a - m_t);
}

/// In a table as reported, the sums of squares of the rows shown add up to
/// the total: with the interaction row when it is kept, and with it folded
/// into repeatability when it is pooled. All share the denominator `n * n`.
pub proof fn lemma_table_sums_add_up(t: AnovaTable, obs: Seq<Observation>, p: int, o: int, critical: Scalar)
    requires
        accepted(obs, p, o),
        t.describes(obs, p, o, critical),
    ensures
        t.use_interaction ==> t.sumsq_parts.num + t.sumsq_operators.num + t.sumsq_part_operator.num
            + t.sumsq_repeatability.num == t.sumsq_total.num,
        !t.use_interaction ==> t.sumsq_parts.num + t.sumsq_operators.num + t.sumsq_repeatability.num
            == t.sumsq_total.num,
        t.sumsq_parts.den == t.sumsq_total.den,
        t.sumsq_operators.den == t.sumsq_total.den,
        t.sumsq_part_operator.den == t.sumsq_total.den,
        t.sumsq_repeatability.den == t.sumsq_total.den,
{
    lemma_sum_of_squares_additivity(obs, p, o);
}

} // verus!

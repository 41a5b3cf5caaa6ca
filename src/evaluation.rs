//! Variance components of a Gage R&R study and the figures derived from them.
//!
//! All variance components of one evaluation share one positive denominator
//! `K`, so each is stored as its numerator: the variance component of a source
//! is `numerator / K`. With `n` observations, `p` parts, `o` operators, `r`
//! replicates and the mean square of a source `q / (n * n * dof)`, the
//! denominator is `K = n^3 * dof_parts * dof_operators * M`, where `M` is
//! `dof_interaction * dof_repeatability` when the interaction is kept and the
//! pooled `dof_repeatability` otherwise; every formula of the method then has
//! an integer numerator over `K`.
use vstd::prelude::*;
use crate::anova::AnovaTable;
use crate::fraction::{Ratio, Scalar};

verus! {

/// The sources of variation of a study.
#[derive(Clone, Copy, Debug, PartialEq, Eq, Structural)]
pub enum VarianceSource {
    /// Within-cell variation (equipment variation).
    Repeatability,
    /// Operator variation, plus the part-by-operator interaction when kept.
    Reproducibility,
    /// Operator variation alone.
    Operator,
    /// Part-by-operator interaction; zero when it is pooled.
    Interaction,
    /// Repeatability plus reproducibility.
    TotalGageRR,
    /// Variation between the parts.
    PartToPart,
    /// Total Gage R&R plus part-to-part variation.
    TotalVariation,
}

/// The non-negative real number `coefficient * sqrt(radicand)`, held exactly.
#[derive(Clone, Copy, Debug, PartialEq, Eq, Structural)]
pub struct Root {
    pub coefficient: Ratio,
    pub radicand: Ratio,
}

/// Why a configuration value is refused.
#[derive(Clone, Copy, Debug, PartialEq, Eq, Structural)]
pub enum ConfigError {
    NonPositiveTolerance,
    NonPositiveProcessVariation,
}

pub open spec fn clamp(x: int) -> int {
    if x < 0 {
        0
    } else {
        x
    }
}

/// The multiplier `M` of the common denominator.
pub open spec fn pool_factor(t: AnovaTable) -> int {
    if t.use_interaction {
        t.dof_part_operator * t.dof_repeatability
    } else {
        t.dof_repeatability as int
    }
}

/// The common denominator `K` of the variance components.
pub open spec fn common_denominator(t: AnovaTable) -> int {
    let n = t.observations as int;
    n * n * n * (t.dof_parts * t.dof_operators) * pool_factor(t)
}

/// Scaled sum of squares of the error term of the main effects.
pub open spec fn error_q(t: AnovaTable) -> int {
    if t.use_interaction {
        t.sumsq_part_operator.num as int
    } else {
        t.sumsq_repeatability.num as int
    }
}

/// Degrees of freedom of the error term of the main effects.
pub open spec fn error_dof(t: AnovaTable) -> int {
    if t.use_interaction {
        t.dof_part_operator as int
    } else {
        t.dof_repeatability as int
    }
}

/// `M` divided by the degrees of freedom of the error term.
pub open spec fn error_factor(t: AnovaTable) -> int {
    if t.use_interaction {
        t.dof_repeatability as int
    } else {
        1
    }
}

/// `M` divided by the degrees of freedom of repeatability.
pub open spec fn repeatability_factor(t: AnovaTable) -> int {
    if t.use_interaction {
        t.dof_part_operator as int
    } else {
        1
    }
}

/// Repeatability: `MS_repeatability`, as a numerator over `K`.
pub open spec fn repeatability_num(t: AnovaTable) -> int {
    let n = t.observations as int;
    t.sumsq_repeatability.num * n * (t.dof_parts * t.dof_operators) * repeatability_factor(t)
}

/// Interaction: `max(0, (MS_interaction - MS_repeatability) / r)` when the
/// interaction is kept, zero otherwise; as a numerator over `K`.
pub open spec fn interaction_num(t: AnovaTable) -> int {
    if t.use_interaction {
        clamp(t.sumsq_part_operator.num * t.dof_repeatability - t.sumsq_repeatability.num * t.dof_part_operator)
            * (t.n_parts * t.n_operators) * (t.dof_parts * t.dof_operators)
    } else {
        0
    }
}

/// Operator: `max(0, (MS_operators - MS_error) / (p * r))`, as a numerator over `K`.
pub open spec fn operator_num(t: AnovaTable) -> int {
    clamp(t.sumsq_operators.num * error_dof(t) - error_q(t) * t.dof_operators) * (t.n_operators * t.dof_parts)
        * error_factor(t)
}

/// Part-to-part: `max(0, (MS_parts - MS_error) / (o * r))`, as a numerator over `K`.
pub open spec fn part_num(t: AnovaTable) -> int {
    clamp(t.sumsq_parts.num * error_dof(t) - error_q(t) * t.dof_parts) * (t.n_parts * t.dof_operators) * error_factor(
        t,
    )
}

/// The largest numerator of a single source.
pub open spec fn num_bound() -> int {
    0x2_0000_0000_0000_0000_0000_0000_0000
}

/// Variance components of a study, with its two configuration values.
pub struct StudyEvaluation {
    /// The common denominator `K` of the variance components.
    pub denominator: i128,
    pub repeatability: i128,
    pub reproducibility: i128,
    pub operator: i128,
    pub interaction: i128,
    pub total_gagerr: i128,
    pub part_to_part: i128,
    pub total_variation: i128,
    pub tolerance: Scalar,
    pub process_variation: Scalar,
    pub use_interaction: bool,
}

impl StudyEvaluation {
    /// The numerator of the variance component of a source.
    pub open spec fn component(&self, s: VarianceSource) -> int {
        match s {
            VarianceSource::Repeatability => self.repeatability as int,
            VarianceSource::Reproducibility => self.reproducibility as int,
            VarianceSource::Operator => self.operator as int,
            VarianceSource::Interaction => self.interaction as int,
            VarianceSource::TotalGageRR => self.total_gagerr as int,
            VarianceSource::PartToPart => self.part_to_part as int,
            VarianceSource::TotalVariation => self.total_variation as int,
        }
    }

    /// `self` holds the variance components of the ANOVA table `t`.
    pub open spec fn evaluates(&self, t: AnovaTable) -> bool {
        &&& self.use_interaction == t.use_interaction
        &&& self.denominator == common_denominator(t)
        &&& self.repeatability == repeatability_num(t)
        &&& self.interaction == interaction_num(t)
        &&& self.operator == operator_num(t)
        &&& self.reproducibility == self.operator + self.interaction
        &&& self.total_gagerr == self.repeatability + self.reproducibility
        &&& self.part_to_part == part_num(t)
        &&& self.total_variation == self.total_gagerr + self.part_to_part
    }

    /// Sizes and sums every evaluation has.
    pub open spec fn wf(&self) -> bool {
        &&& 0 < self.denominator <= 0x1000_0000_0000_0000
        &&& 0 <= self.repeatability <= num_bound()
        &&& 0 <= self.operator <= num_bound()
        &&& 0 <= self.interaction <= num_bound()
        &&& 0 <= self.part_to_part <= num_bound()
        &&& self.reproducibility == self.operator + self.interaction
        &&& self.total_gagerr == self.repeatability + self.reproducibility
        &&& self.total_variation == self.total_gagerr + self.part_to_part
        &&& self.tolerance.positive()
        &&& self.process_variation.positive()
    }
}

proof fn lemma_mul_le(a: int, ba: int, b: int, bb: int)
    requires
        0 <= a <= ba,
        0 <= b <= bb,
    ensures
        0 <= a * b <= ba * bb,
{
    assert(0 <= a * b <= ba * bb) by (nonlinear_arith)
        requires
            0 <= a <= ba,
            0 <= b <= bb,
    ;
}

impl StudyEvaluation {
    /// The variance components of an ANOVA table, with a tolerance of 1 and
    /// a process-variation multiplier of 5.15 until others are supplied.
    pub fn from_anova(t: &AnovaTable) -> (e: StudyEvaluation)
        requires
            t.wf(),
        ensures
            e.evaluates(*t),
            e.wf(),
            e.tolerance == (Scalar { num: 1, den: 1 }),
            e.process_variation == (Scalar { num: 515, den: 100 }),
    {
        let ghost pp = t.n_parts as int;
        let ghost oo = t.n_operators as int;
        let ghost rr = t.replicates as int;
        let ghost nn = t.observations as int;
        proof {
            assert(pp * oo <= nn && pp <= 512 && oo <= 512) by (nonlinear_arith)
                requires
                    nn == pp * oo * rr,
                    pp >= 2,
                    oo >= 2,
                    rr >= 1,
                    nn <= 1024,
            ;
            assert((pp - 1) * (oo - 1) <= 1024 && oo * (pp - 1) <= 1024 && pp * (oo - 1) <= 1024) by (nonlinear_arith)
                requires
                    pp * oo <= 1024,
                    pp >= 2,
                    oo >= 2,
            ;
            assert((pp - 1) * (oo - 1) >= 1 && nn >= 1) by (nonlinear_arith)
                requires
                    nn == pp * oo * rr,
                    pp >= 2,
                    oo >= 2,
                    rr >= 1,
            ;
            assert(pp * oo * (rr - 1) + (pp - 1) * (oo - 1) <= 1024 && pp * oo * (rr - 1) >= 0) by (nonlinear_arith)
                requires
                    nn == pp * oo * rr,
                    pp >= 2,
                    oo >= 2,
                    rr >= 1,
                    nn <= 1024,
            ;
        }
        let n = t.observations as i128;
        let p = t.n_parts as i128;
        let o = t.n_operators as i128;
        let d_p = t.dof_parts as i128;
        let d_o = t.dof_operators as i128;
        let d_i = t.dof_part_operator as i128;
        let d_r = t.dof_repeatability as i128;
        let q_p = t.sumsq_parts.num;
        let q_o = t.sumsq_operators.num;
        let q_i = t.sumsq_part_operator.num;
        let q_r = t.sumsq_repeatability.num;
        let use_interaction = t.use_interaction;
        proof {
            lemma_mul_le(d_i as int, 1024, d_r as int, 1024);
        }
        let (q_err, d_err, err_f, rep_f, m) = if use_interaction {
            (q_i, d_i, d_r, d_i, d_i * d_r)
        } else {
            (q_r, d_r, 1i128, 1i128, d_r)
        };
        let ghost q_max = 0x4_0000_0000_0000_0000_0000int;
        proof {
            assert(q_max == crate::anova::q_bound());
            lemma_mul_le(n as int, 1024, n as int, 1024);
            lemma_mul_le(n * n, 1024 * 1024int, n as int, 1024);
            lemma_mul_le(n * n * n, 1024 * 1024 * 1024int, (d_p * d_o) as int, 1024);
            lemma_mul_le(n * n * n * (d_p * d_o), 1024 * 1024 * 1024 * 1024int, m as int, 1024 * 1024int);
            assert(m >= 1) by (nonlinear_arith)
                requires
                    use_interaction ==> m == d_i * d_r && d_i >= 1 && d_r >= 1,
                    !use_interaction ==> m == d_r && d_r >= 1,
            ;
            assert(n * n * n * (d_p * d_o) * m >= 1) by (nonlinear_arith)
                requires
                    n >= 1,
                    d_p >= 1,
                    d_o >= 1,
                    m >= 1,
            ;
        }
        let dpdo = d_p * d_o;
        let k = n * n * n * dpdo * m;
        proof {
            lemma_mul_le(q_r as int, 2 * q_max, n as int, 1024);
            lemma_mul_le(q_r * n, 2 * q_max * 1024, dpdo as int, 1024);
            lemma_mul_le(q_r * n * dpdo, 2 * q_max * 1024 * 1024, rep_f as int, 1024);
        }
        let rep = q_r * n * dpdo * rep_f;
        proof {
            lemma_mul_le(q_i as int, q_max, d_r as int, 1024);
            lemma_mul_le(q_r as int, 2 * q_max, d_i as int, 1024);
        }
        let inter = if use_interaction {
            let diff = q_i * d_r - q_r * d_i;
            let c = if diff < 0 { 0 } else { diff };
            proof {
                lemma_mul_le(c as int, q_max * 1024, (p * o) as int, 1024);
                lemma_mul_le(c * (p * o), q_max * 1024 * 1024, dpdo as int, 1024);
            }
            c * (p * o) * dpdo
        } else {
            0
        };
        proof {
            lemma_mul_le(q_o as int, q_max, d_err as int, 1024);
            lemma_mul_le(q_p as int, q_max, d_err as int, 1024);
            lemma_mul_le(q_err as int, 2 * q_max, d_o as int, 1024);
            lemma_mul_le(q_err as int, 2 * q_max, d_p as int, 1024);
        }
        let diff_o = q_o * d_err - q_err * d_o;
        let c_o = if diff_o < 0 { 0 } else { diff_o };
        let diff_p = q_p * d_err - q_err * d_p;
        let c_p = if diff_p < 0 { 0 } else { diff_p };
        proof {
            lemma_mul_le(c_o as int, q_max * 1024, (o * d_p) as int, 1024);
            lemma_mul_le(c_o * (o * d_p), q_max * 1024 * 1024, err_f as int, 1024);
            lemma_mul_le(c_p as int, q_max * 1024, (p * d_o) as int, 1024);
            lemma_mul_le(c_p * (p * d_o), q_max * 1024 * 1024, err_f as int, 1024);
        }
        let op = c_o * (o * d_p) * err_f;
        let part = c_p * (p * d_o) * err_f;
        let reproducibility = op + inter;
        let total_gagerr = rep + reproducibility;
        StudyEvaluation {
            denominator: k,
            repeatability: rep,
            reproducibility,
            operator: op,
            interaction: inter,
            total_gagerr,
            part_to_part: part,
            total_variation: total_gagerr + part,
            tolerance: Scalar::new(1, 1),
            process_variation: Scalar::new(515, 100),
            use_interaction,
        }
    }
}

impl StudyEvaluation {
    /// The numerator of the variance component of a source.
    pub fn component_of(&self, s: VarianceSource) -> (c: i128)
        ensures
            c == self.component(s),
    {
        match s {
            VarianceSource::Repeatability => self.repeatability,
            VarianceSource::Reproducibility => self.reproducibility,
            VarianceSource::Operator => self.operator,
            VarianceSource::Interaction => self.interaction,
            VarianceSource::TotalGageRR => self.total_gagerr,
            VarianceSource::PartToPart => self.part_to_part,
            VarianceSource::TotalVariation => self.total_variation,
        }
    }

    /// The variance component of a source.
    pub fn varcomp(&self, s: VarianceSource) -> (v: Ratio)
        requires
            self.wf(),
        ensures
            v.num == self.component(s),
            v.den == self.denominator,
            v.num >= 0,
            v.den > 0,
    {
        proof {
            lemma_components_nonnegative(*self);
        }
        Ratio { num: self.component_of(s), den: self.denominator }
    }

    /// The standard deviation of a source: the square root of its variance component.
    pub fn stddev(&self, s: VarianceSource) -> (d: Root)
        requires
            self.wf(),
        ensures
            d.coefficient == (Ratio { num: 1, den: 1 }),
            d.radicand.num == self.component(s),
            d.radicand.den == self.denominator,
    {
        Root { coefficient: Ratio { num: 1, den: 1 }, radicand: self.varcomp(s) }
    }

    /// `100 * varcomp(s) / varcomp(TotalVariation)`; `None` when the total
    /// variation is zero.
    pub fn percent_contribution(&self, s: VarianceSource) -> (pc: Option<Ratio>)
        requires
            self.wf(),
        ensures
            self.total_variation == 0 ==> pc is None,
            self.total_variation != 0 ==> pc == Some(
                Ratio { num: (100 * self.component(s)) as i128, den: self.total_variation },
            ),
    {
        if self.total_variation == 0 {
            None
        } else {
            proof {
                lemma_components_nonnegative(*self);
                lemma_component_at_most_total(*self, s);
            }
            Some(Ratio { num: 100 * self.component_of(s), den: self.total_variation })
        }
    }

    /// `100 * stddev(s) / stddev(TotalVariation)`; `None` when the total
    /// variation is zero.
    pub fn percent_study_variation(&self, s: VarianceSource) -> (pv: Option<Root>)
        requires
            self.wf(),
        ensures
            self.total_variation == 0 ==> pv is None,
            self.total_variation != 0 ==> pv == Some(
                Root {
                    coefficient: Ratio { num: 100, den: 1 },
                    radicand: Ratio { num: self.component(s) as i128, den: self.total_variation },
                },
            ),
    {
        if self.total_variation == 0 {
            None
        } else {
            Some(
                Root {
                    coefficient: Ratio { num: 100, den: 1 },
                    radicand: Ratio { num: self.component_of(s), den: self.total_variation },
                },
            )
        }
    }

    /// The study variation of a source: `process_variation * stddev(s)`.
    pub fn study_variation(&self, s: VarianceSource) -> (sv: Root)
        requires
            self.wf(),
        ensures
            sv.coefficient.num == self.process_variation.num,
            sv.coefficient.den == self.process_variation.den,
            sv.radicand.num == self.component(s),
            sv.radicand.den == self.denominator,
    {
        Root {
            coefficient: Ratio { num: self.process_variation.num as i128, den: self.process_variation.den as i128 },
            radicand: self.varcomp(s),
        }
    }

    /// The percentage of the tolerance taken by the study variation of a
    /// source: `100 * study_variation(s) / tolerance`.
    pub fn percent_tolerance(&self, s: VarianceSource) -> (pt: Root)
        requires
            self.wf(),
        ensures
            pt.coefficient.num == percent_tolerance_num(*self),
            pt.coefficient.den == percent_tolerance_den(*self),
            pt.radicand.num == self.component(s),
            pt.radicand.den == self.denominator,
    {
        let pv = self.process_variation;
        let tol = self.tolerance;
        proof {
            lemma_mul_le(pv.num as int, 0xFFFF_FFFF, tol.den as int, 0xFFFF_FFFF);
            lemma_mul_le(pv.den as int, 0xFFFF_FFFF, tol.num as int, 0xFFFF_FFFF);
        }
        Root {
            coefficient: Ratio {
                num: 100 * ((pv.num as i128) * (tol.den as i128)),
                den: (pv.den as i128) * (tol.num as i128),
            },
            radicand: self.varcomp(s),
        }
    }

    /// The same evaluation with another tolerance; a tolerance that is not
    /// positive is refused.
    pub fn with_tolerance(self, tolerance: Scalar) -> (res: Result<StudyEvaluation, ConfigError>)
        requires
            self.wf(),
        ensures
            tolerance.positive() ==> res == Ok::<StudyEvaluation, ConfigError>(StudyEvaluation { tolerance, ..self }),
            !tolerance.positive() ==> res == Err::<StudyEvaluation, ConfigError>(ConfigError::NonPositiveTolerance),
    {
        if tolerance.num == 0 || tolerance.den == 0 {
            Err(ConfigError::NonPositiveTolerance)
        } else {
            Ok(StudyEvaluation { tolerance, ..self })
        }
    }

    /// The same evaluation with another process-variation multiplier; one that
    /// is not positive is refused.
    pub fn with_process_variation(self, process_variation: Scalar) -> (res: Result<StudyEvaluation, ConfigError>)
        requires
            self.wf(),
        ensures
            process_variation.positive() ==> res == Ok::<StudyEvaluation, ConfigError>(
                StudyEvaluation { process_variation, ..self },
            ),
            !process_variation.positive() ==> res == Err::<StudyEvaluation, ConfigError>(
                ConfigError::NonPositiveProcessVariation,
            ),
    {
        if process_variation.num == 0 || process_variation.den == 0 {
            Err(ConfigError::NonPositiveProcessVariation)
        } else {
            Ok(StudyEvaluation { process_variation, ..self })
        }
    }
}

/// Numerator of the coefficient of every percentage of tolerance:
/// `100 * process_variation / tolerance`.
pub open spec fn percent_tolerance_num(e: StudyEvaluation) -> int {
    100 * (e.process_variation.num * e.tolerance.den)
}

/// Denominator of the coefficient of every percentage of tolerance.
pub open spec fn percent_tolerance_den(e: StudyEvaluation) -> int {
    e.process_variation.den * e.tolerance.num
}

/// Every variance component, hence every standard deviation, is non-negative;
/// the raw mean-square differences are clamped at zero where they are negative.
pub proof fn lemma_components_nonnegative(e: StudyEvaluation)
    requires
        e.wf(),
    ensures
        forall|s: VarianceSource| #[trigger] e.component(s) >= 0,
        e.denominator > 0,
{
}

/// No source exceeds the total variation.
pub proof fn lemma_component_at_most_total(e: StudyEvaluation, s: VarianceSource)
    requires
        e.wf(),
    ensures
        e.component(s) <= e.total_variation,
        e.total_variation <= 4 * num_bound(),
{
}

/// Reproducibility is the operator component alone when the interaction is
/// pooled, and the operator plus the interaction component when it is kept.
pub proof fn lemma_reproducibility_pooling(t: AnovaTable, e: StudyEvaluation)
    requires
        e.evaluates(t),
    ensures
        !e.use_interaction ==> e.reproducibility == e.operator,
        e.use_interaction ==> e.reproducibility == e.operator + e.interaction,
{
}

/// Evaluating the same table with the same configuration gives identical results.
pub proof fn lemma_evaluation_deterministic(t: AnovaTable, e1: StudyEvaluation, e2: StudyEvaluation)
    requires
        e1.evaluates(t),
        e2.evaluates(t),
        e1.tolerance == e2.tolerance,
        e1.process_variation == e2.process_variation,
    ensures
        e1 == e2,
{
}

/// Doubling the tolerance halves every percentage of tolerance and leaves the
/// variance components, and hence the standard deviations, unchanged.
pub proof fn lemma_tolerance_doubled(e: StudyEvaluation, tolerance: Scalar, doubled: Scalar)
    requires
        e.wf(),
        tolerance.positive(),
        doubled.positive(),
        doubled.num * tolerance.den == 2 * tolerance.num * doubled.den,
    ensures
        ({
            let e1 = StudyEvaluation { tolerance, ..e };
            let e2 = StudyEvaluation { tolerance: doubled, ..e };
            &&& 2 * percent_tolerance_num(e2) * percent_tolerance_den(e1) == percent_tolerance_num(e1)
                * percent_tolerance_den(e2)
            &&& forall|s: VarianceSource| #[trigger] e2.component(s) == e1.component(s)
            &&& e2.denominator == e1.denominator
        }),
{
    let a = e.process_variation.num as int;
    let b = e.process_variation.den as int;
    let t1n = tolerance.num as int;
    let t1d = tolerance.den as int;
    let t2n = doubled.num as int;
    let t2d = doubled.den as int;
    assert(2 * (100 * (a * t2d)) * (b * t1n) == 100 * (a * t1d) * (b * t2n)) by (nonlinear_arith)
        requires
            t2n * t1d == 2 * t1n * t2d,
    ;
}

/// The variance components as fractions of mean squares, with every mean
/// square `MS_X = q_X / (n * n * dof_X)` as in the ANOVA table:
/// repeatability is `MS_repeatability`; the operator component is
/// `max(0, (MS_operators - MS_error) / (p * r))` and the part component
/// `max(0, (MS_parts - MS_error) / (o * r))`, where the error term is the
/// interaction when kept and the pooled repeatability otherwise; the
/// interaction component is `max(0, (MS_interaction - MS_repeatability) / r)`
/// when kept. Each equation is the equality of two fractions, cross-multiplied.
pub proof fn lemma_varcomp_formulas(t: AnovaTable, e: StudyEvaluation)
    requires
        t.wf(),
        e.evaluates(t),
    ensures
        ({
            let n = t.observations as int;
            let p = t.n_parts as int;
            let o = t.n_operators as int;
            let r = t.replicates as int;
            let k = e.denominator as int;
            &&& e.repeatability * (n * n * t.dof_repeatability) == t.sumsq_repeatability.num * k
            &&& e.operator * (n * n * t.dof_operators * error_dof(t) * (p * r)) == clamp(
                t.sumsq_operators.num * error_dof(t) - error_q(t) * t.dof_operators,
            ) * k
            &&& e.part_to_part * (n * n * t.dof_parts * error_dof(t) * (o * r)) == clamp(
                t.sumsq_parts.num * error_dof(t) - error_q(t) * t.dof_parts,
            ) * k
            &&& t.use_interaction ==> e.interaction * (n * n * t.dof_part_operator * t.dof_repeatability * r) == clamp(
                t.sumsq_part_operator.num * t.dof_repeatability - t.sumsq_repeatability.num * t.dof_part_operator,
            ) * k
        }),
{
    let n = t.observations as int;
    let p = t.n_parts as int;
    let o = t.n_operators as int;
    let r = t.replicates as int;
    let dp = t.dof_parts as int;
    let d_o = t.dof_operators as int;
    let di = t.dof_part_operator as int;
    let dr = t.dof_repeatability as int;
    let m = pool_factor(t);
    let de = error_dof(t);
    let ef = error_factor(t);
    let rf = repeatability_factor(t);
    let k = e.denominator as int;
    assert(de * ef == m && dr * rf == m);
    assert(k == n * n * n * (dp * d_o) * m);
    let qr = t.sumsq_repeatability.num as int;
    let dd = dp * d_o;
    let z0 = n * n;
    let a0 = qr * n * dd;
    assert(a0 * rf * (z0 * dr) == a0 * (rf * dr) * z0) by (nonlinear_arith);
    assert(rf * dr == m) by (nonlinear_arith)
        requires
            dr * rf == m,
    ;
    assert(qr * (z0 * n * dd * m) == a0 * m * z0) by (nonlinear_arith)
        requires
            a0 == qr * n * dd,
    ;
    assert(n * n * n * dd * m == z0 * n * dd * m);
    let z = n * n;
    let co = clamp(t.sumsq_operators.num * de - error_q(t) * d_o);
    assert(ef * de == m) by (nonlinear_arith)
        requires
            de * ef == m,
    ;
    assert((o * dp) * (p * r) == n * dp) by (nonlinear_arith)
        requires
            n == p * o * r,
    ;
    lemma_cross_factor(co, o * dp, ef, z * d_o * de, p * r, n * dp, m, z * d_o, de);
    lemma_denominator_split(co, n, dp, d_o, m, z);
    assert(n * n * d_o * de * (p * r) == z * d_o * de * (p * r));
    let cp = clamp(t.sumsq_parts.num * de - error_q(t) * dp);
    assert((p * d_o) * (o * r) == n * d_o) by (nonlinear_arith)
        requires
            n == p * o * r,
    ;
    lemma_cross_factor(cp, p * d_o, ef, z * dp * de, o * r, n * d_o, m, z * dp, de);
    lemma_denominator_split(cp, n, d_o, dp, m, z);
    assert(cp * (n * d_o) * (m * (z * dp)) == cp * (n * n * n * (dp * d_o) * m)) by (nonlinear_arith)
        requires
            cp * (n * d_o) * (m * (z * dp)) == cp * (z * n * (d_o * dp) * m),
            z == n * n,
    ;
    if t.use_interaction {
        let ci = clamp(t.sumsq_part_operator.num * dr - qr * di);
        assert((p * o) * r == n);
        assert((dp * d_o) * 1 == dp * d_o);
        lemma_cross_factor(ci, p * o, dp * d_o, z * di * dr, r, n, dp * d_o, z * di * dr, 1);
        let y = z * di * dr;
        assert(ci * n * (dd * y) == ci * (n * (z * dd * (di * dr)))) by (nonlinear_arith)
            requires
                y == z * di * dr,
        ;
        assert(n * (z * (dp * d_o) * (di * dr)) == n * n * n * (dp * d_o) * m) by (nonlinear_arith)
            requires
                z == n * n,
                m == di * dr,
        ;
    }
}

/// `(c * u * f) * (w * v) == c * (u * v) * (f * d) * y` whenever `u * v == uv`,
/// `f * d == fd` and `w == y * d`, stated with those products named.
proof fn lemma_cross_factor(c: int, u: int, f: int, w: int, v: int, uv: int, fd: int, y: int, d: int)
    requires
        u * v == uv,
        f * d == fd,
        w == y * d,
    ensures
        c * u * f * (w * v) == c * uv * (fd * y),
{
    let x1 = c * u;
    assert(x1 * f * (w * v) == (x1 * v) * (f * w)) by (nonlinear_arith);
    assert(x1 * v == c * uv) by (nonlinear_arith)
        requires
            x1 == c * u,
            u * v == uv,
    ;
    assert(f * w == fd * y) by (nonlinear_arith)
        requires
            w == y * d,
            f * d == fd,
    ;
    assert((c * uv) * (fd * y) == c * uv * (fd * y));
}

/// `c * (n * a) * (m * (z * b)) == c * (z * n * (a * b) * m)`.
proof fn lemma_denominator_split(c: int, n: int, a: int, b: int, m: int, z: int)
    ensures
        c * (n * a) * (m * (z * b)) == c * (z * n * (a * b) * m),
{
    assert((n * a) * (m * (z * b)) == z * n * (a * b) * m) by (nonlinear_arith);
    assert(c * (n * a) * (m * (z * b)) == c * ((n * a) * (m * (z * b)))) by (nonlinear_arith);
}

} // verus!

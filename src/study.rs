//! The whole pipeline: records to grouped dataset, ANOVA table and evaluation.
use vstd::prelude::*;
use crate::anova::{design_error, indices_in, AnovaTable, DesignError};
use crate::dataset::{GroupedDataset, MeasurementRecord};
use crate::evaluation::{ConfigError, StudyEvaluation};
use crate::fraction::Scalar;

verus! {

/// Why a study cannot be evaluated.
#[derive(Clone, Copy, Debug, PartialEq, Eq, Structural)]
pub enum StudyError {
    Design(DesignError),
    Config(ConfigError),
}

/// Groups the records, analyses the design with the interaction tested
/// against `critical`, and evaluates it with the given tolerance and
/// process-variation multiplier. The grouping is returned whatever the
/// outcome; design errors are reported before configuration errors, and a bad
/// tolerance before a bad multiplier.
pub fn evaluate_study(
    name: String,
    records: &Vec<MeasurementRecord>,
    critical: Scalar,
    tolerance: Scalar,
    process_variation: Scalar,
) -> (res: (GroupedDataset, Result<(AnovaTable, StudyEvaluation), StudyError>))
    ensures
        res.0.name == name,
        res.0.groups(records@),
        ({
            let obs = res.0.observations@;
            let p = res.0.parts@.len() as int;
            let o = res.0.operators@.len() as int;
            match res.1 {
                Ok((t, e)) => {
                    &&& design_error(obs, p, o) is None
                    &&& t.wf()
                    &&& t.describes(obs, p, o, critical)
                    &&& e.evaluates(t)
                    &&& e.wf()
                    &&& e.tolerance == tolerance
                    &&& e.process_variation == process_variation
                },
                Err(StudyError::Design(d)) => design_error(obs, p, o) == Some(d),
                Err(StudyError::Config(c)) => {
                    &&& design_error(obs, p, o) is None
                    &&& !tolerance.positive() ==> c == ConfigError::NonPositiveTolerance
                    &&& tolerance.positive() ==> c == ConfigError::NonPositiveProcessVariation
                        && !process_variation.positive()
                },
            }
        }),
{
    let dataset = GroupedDataset::from_records(name, records);
    assert(indices_in(dataset.observations@, dataset.parts@.len() as int, dataset.operators@.len() as int));
    let anova = match AnovaTable::from_dataset(&dataset, critical) {
        Ok(t) => t,
        Err(e) => {
            return (dataset, Err(StudyError::Design(e)));
        },
    };
    let base = StudyEvaluation::from_anova(&anova);
    let with_tol = match base.with_tolerance(tolerance) {
        Ok(e) => e,
        Err(c) => {
            return (dataset, Err(StudyError::Config(c)));
        },
    };
    let evaluation = match with_tol.with_process_variation(process_variation) {
        Ok(e) => e,
        Err(c) => {
            return (dataset, Err(StudyError::Config(c)));
        },
    };
    (dataset, Ok((anova, evaluation)))
}

} // verus!

//! Gage repeatability and reproducibility (Gage R&R) by the ANOVA method.
//!
//! Measurement records are grouped by part and by operator, decomposed by a
//! balanced crossed two-factor analysis of variance, and turned into variance
//! components. All arithmetic is exact: measured values are integers in units
//! of the gage resolution, and every derived quantity is an exact fraction or
//! the exact square root of one.

pub mod ident;
pub mod dataset;
pub mod sums;
pub mod fraction;
pub mod anova;
pub mod decomposition;
pub mod evaluation;
pub mod plot;
pub mod study;

pub use anova::{AnovaTable, DesignError, MAX_MAGNITUDE, MAX_OBSERVATIONS};
pub use dataset::{Group, GroupedDataset, MeasurementRecord, Observation};
pub use evaluation::{ConfigError, Root, StudyEvaluation, VarianceSource};
pub use fraction::{Ratio, Scalar};
pub use plot::PlotType;
pub use study::{evaluate_study, StudyError};

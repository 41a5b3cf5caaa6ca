//! The kinds of measurement plot a presentation layer draws from a grouped dataset.
use vstd::prelude::*;

verus! {

/// Which grouping of the measurements a plot shows.
#[derive(Clone, Copy, Debug, PartialEq, Eq, Structural)]
pub enum PlotType {
    /// Measurements of each part, with the part averages.
    PartMeasurement,
    /// Measurements of each operator, as box plots.
    OperatorMeasurement,
}

impl PlotType {
    /// The title of the plot window.
    pub fn title(&self) -> (s: &'static str)
        ensures
            *self == PlotType::PartMeasurement ==> s@ == "Part Measurements"@,
            *self == PlotType::OperatorMeasurement ==> s@ == "Operator Measurements"@,
    {
        match self {
            PlotType::PartMeasurement => "Part Measurements",
            PlotType::OperatorMeasurement => "Operator Measurements",
        }
    }
}

} // verus!

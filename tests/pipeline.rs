use gage_rr::{
    evaluate_study, AnovaTable, ConfigError, DesignError, GroupedDataset, MeasurementRecord, PlotType, Ratio,
    Scalar, StudyError, StudyEvaluation, VarianceSource,
};

fn rec(part: &str, operator: &str, replicate: u32, measured: i32) -> MeasurementRecord {
    MeasurementRecord {
        part_id: part.to_string(),
        operator_id: operator.to_string(),
        replicate,
        measured,
        nominal: None,
    }
}

/// Ten parts, three operators, two replicates, records in scrambled order.
fn ten_by_three() -> Vec<MeasurementRecord> {
    let mut recs = Vec::new();
    for rep in 1..=2i32 {
        for (b, op) in ["C", "A", "B"].iter().enumerate() {
            let b = b as i32;
            for a in (1..=10i32).rev() {
                let x = 1000 + 37 * a + 5 * b + ((a * 7 + b * 3 + rep * 11) % 13) + (a * b) % 5;
                recs.push(rec(&format!("P{:02}", a), op, rep as u32, x));
            }
        }
    }
    recs
}

/// Five parts, three operators, two replicates; cell means are exactly additive.
fn additive_cells() -> Vec<MeasurementRecord> {
    let mut recs = Vec::new();
    for a in 1..=5i32 {
        for (b, op) in ["X", "Y", "Z"].iter().enumerate() {
            for rep in 1..=2u32 {
                let x = 100 * a + 10 * b as i32 + if rep == 1 { 1 } else { -1 };
                recs.push(rec(&format!("part{}", a), op, rep, x));
            }
        }
    }
    recs
}

/// Two parts by two operators, where the operator mean square is below the
/// interaction mean square.
fn small() -> Vec<MeasurementRecord> {
    vec![
        rec("p1", "o1", 1, 10),
        rec("p1", "o1", 2, 12),
        rec("p1", "o2", 1, 15),
        rec("p1", "o2", 2, 13),
        rec("p2", "o1", 1, 20),
        rec("p2", "o1", 2, 22),
        rec("p2", "o2", 1, 17),
        rec("p2", "o2", 2, 19),
    ]
}

fn is_frac(r: Ratio, num: i128, den: i128) -> bool {
    r.den > 0 && r.num * den == num * r.den
}

fn table(recs: &Vec<MeasurementRecord>, critical: Scalar) -> Result<AnovaTable, DesignError> {
    let ds = GroupedDataset::from_records("test".to_string(), recs);
    AnovaTable::from_dataset(&ds, critical)
}

fn keep_all() -> Scalar {
    Scalar::new(0, 1)
}

#[test]
fn ten_parts_three_operators_degrees_of_freedom() {
    let t = table(&ten_by_three(), keep_all()).unwrap();
    assert!(t.use_interaction);
    assert_eq!(t.observations, 60);
    assert_eq!(t.dof_parts, 9);
    assert_eq!(t.dof_operators, 2);
    assert_eq!(t.dof_part_operator, 18);
    assert_eq!(t.dof_repeatability, 30);
    assert_eq!(t.dof_total, 59);
    assert_eq!(t.dof_parts + t.dof_operators + t.dof_part_operator + t.dof_repeatability, t.dof_total);
}

#[test]
fn ten_parts_sums_of_squares_add_up() {
    let t = table(&ten_by_three(), keep_all()).unwrap();
    let den = t.sumsq_total.den;
    assert_eq!(den, 3600);
    for r in [t.sumsq_parts, t.sumsq_operators, t.sumsq_part_operator, t.sumsq_repeatability] {
        assert_eq!(r.den, den);
    }
    assert_eq!(
        t.sumsq_parts.num + t.sumsq_operators.num + t.sumsq_part_operator.num + t.sumsq_repeatability.num,
        t.sumsq_total.num
    );
}

#[test]
fn ten_parts_exact_table() {
    let t = table(&ten_by_three(), keep_all()).unwrap();
    assert!(is_frac(t.sumsq_parts, 2016103, 3));
    assert!(is_frac(t.sumsq_operators, 24776, 15));
    assert!(is_frac(t.sumsq_part_operator, 5644, 15));
    assert!(is_frac(t.sumsq_repeatability, 294, 1));
    assert!(is_frac(t.sumsq_total, 2023069, 3));
    assert!(is_frac(t.meansq_parts, 2016103, 27));
    assert!(is_frac(t.meansq_operators, 12388, 15));
    assert!(is_frac(t.meansq_part_operator, 2822, 135));
    assert!(is_frac(t.meansq_repeatability, 49, 5));
    assert!(is_frac(t.f_parts.unwrap(), 10080515, 2822));
    assert!(is_frac(t.f_operators.unwrap(), 55746, 1411));
    assert!(is_frac(t.f_part_operator.unwrap(), 2822, 1323));
}

#[test]
fn ten_parts_exact_variance_components() {
    let t = table(&ten_by_three(), keep_all()).unwrap();
    let e = StudyEvaluation::from_anova(&t);
    assert!(is_frac(e.varcomp(VarianceSource::Repeatability), 49, 5));
    assert!(is_frac(e.varcomp(VarianceSource::Interaction), 1499, 270));
    assert!(is_frac(e.varcomp(VarianceSource::Operator), 10867, 270));
    assert!(is_frac(e.varcomp(VarianceSource::Reproducibility), 229, 5));
    assert!(is_frac(e.varcomp(VarianceSource::TotalGageRR), 278, 5));
    assert!(is_frac(e.varcomp(VarianceSource::PartToPart), 3359231, 270));
    assert!(is_frac(e.varcomp(VarianceSource::TotalVariation), 3374243, 270));
}

#[test]
fn single_operator_rejected() {
    let recs: Vec<MeasurementRecord> = ten_by_three().into_iter().filter(|r| r.operator_id == "A").collect();
    assert_eq!(table(&recs, keep_all()).err(), Some(DesignError::TooFewOperators));
}

#[test]
fn single_part_rejected() {
    let recs: Vec<MeasurementRecord> = ten_by_three().into_iter().filter(|r| r.part_id == "P03").collect();
    assert_eq!(table(&recs, keep_all()).err(), Some(DesignError::TooFewParts));
}

#[test]
fn empty_input_rejected() {
    assert_eq!(table(&Vec::new(), keep_all()).err(), Some(DesignError::TooFewParts));
}

#[test]
fn empty_cell_rejected() {
    let recs: Vec<MeasurementRecord> =
        small().into_iter().filter(|r| !(r.part_id == "p2" && r.operator_id == "o2")).collect();
    assert_eq!(table(&recs, keep_all()).err(), Some(DesignError::EmptyCell));
}

#[test]
fn unequal_replicates_rejected() {
    let mut recs = small();
    recs.push(rec("p2", "o2", 3, 18));
    assert_eq!(table(&recs, keep_all()).err(), Some(DesignError::Unbalanced));
}

#[test]
fn too_many_observations_rejected() {
    let mut recs = Vec::new();
    for k in 0..1025u32 {
        recs.push(rec(if k % 2 == 0 { "a" } else { "b" }, if k % 4 < 2 { "x" } else { "y" }, k, 1));
    }
    assert_eq!(table(&recs, keep_all()).err(), Some(DesignError::TooManyObservations));
}

#[test]
fn measurement_out_of_range_rejected() {
    let mut recs = small();
    recs[3].measured = 16777217;
    assert_eq!(table(&recs, keep_all()).err(), Some(DesignError::MeasurementOutOfRange));
    recs[3].measured = -16777216;
    assert!(table(&recs, keep_all()).is_ok());
}

#[test]
fn interaction_pooled_below_threshold() {
    let recs = additive_cells();
    let kept = table(&recs, keep_all()).unwrap();
    assert!(kept.use_interaction);
    assert_eq!(kept.sumsq_part_operator.num, 0);
    let pooled = table(&recs, Scalar::new(1, 1)).unwrap();
    assert!(!pooled.use_interaction);
    assert_eq!(pooled.dof_part_operator, 8);
    assert_eq!(pooled.dof_repeatability, 15 + 8);
    assert_eq!(
        pooled.sumsq_repeatability.num,
        kept.sumsq_repeatability.num + kept.sumsq_part_operator.num
    );
    assert!(is_frac(pooled.sumsq_repeatability, 30, 1));
    assert!(is_frac(pooled.meansq_repeatability, 30, 23));
    assert!(is_frac(pooled.f_parts.unwrap(), 115000, 1));
    assert!(is_frac(pooled.f_operators.unwrap(), 2300, 3));
    assert!(is_frac(pooled.f_part_operator.unwrap(), 0, 1));
    assert_eq!(pooled.dof_parts + pooled.dof_operators + pooled.dof_repeatability, pooled.dof_total);
}

#[test]
fn pooled_variance_components() {
    let t = table(&additive_cells(), Scalar::new(1, 1)).unwrap();
    let e = StudyEvaluation::from_anova(&t);
    assert!(!e.use_interaction);
    assert_eq!(e.interaction, 0);
    assert_eq!(e.reproducibility, e.operator);
    assert!(is_frac(e.varcomp(VarianceSource::Repeatability), 30, 23));
    assert!(is_frac(e.varcomp(VarianceSource::Operator), 2297, 23));
    assert!(is_frac(e.varcomp(VarianceSource::PartToPart), 574995, 23));
    assert!(is_frac(e.varcomp(VarianceSource::TotalGageRR), 2327, 23));
    assert!(is_frac(e.varcomp(VarianceSource::TotalVariation), 577322, 23));
}

#[test]
fn kept_interaction_reproducibility_adds_interaction() {
    let t = table(&ten_by_three(), keep_all()).unwrap();
    let e = StudyEvaluation::from_anova(&t);
    assert!(e.use_interaction);
    assert_eq!(e.reproducibility, e.operator + e.interaction);
    assert!(e.interaction > 0);
}

#[test]
fn negative_difference_is_clamped() {
    let t = table(&small(), keep_all()).unwrap();
    assert!(t.use_interaction);
    assert!(is_frac(t.meansq_operators, 0, 1));
    assert!(is_frac(t.meansq_part_operator, 18, 1));
    let e = StudyEvaluation::from_anova(&t);
    assert_eq!(e.operator, 0);
    assert!(is_frac(e.varcomp(VarianceSource::Interaction), 8, 1));
    assert!(is_frac(e.varcomp(VarianceSource::PartToPart), 20, 1));
    assert!(is_frac(e.varcomp(VarianceSource::TotalVariation), 30, 1));
    for s in [
        VarianceSource::Repeatability,
        VarianceSource::Reproducibility,
        VarianceSource::Operator,
        VarianceSource::Interaction,
        VarianceSource::TotalGageRR,
        VarianceSource::PartToPart,
        VarianceSource::TotalVariation,
    ] {
        assert!(e.varcomp(s).num >= 0);
        assert!(e.stddev(s).radicand.num >= 0);
    }
}

#[test]
fn evaluation_is_repeatable() {
    let t = table(&ten_by_three(), keep_all()).unwrap();
    let e1 = StudyEvaluation::from_anova(&t).with_tolerance(Scalar::new(3, 2)).unwrap();
    let e2 = StudyEvaluation::from_anova(&t).with_tolerance(Scalar::new(3, 2)).unwrap();
    assert_eq!(e1.denominator, e2.denominator);
    assert_eq!(e1.repeatability, e2.repeatability);
    assert_eq!(e1.reproducibility, e2.reproducibility);
    assert_eq!(e1.operator, e2.operator);
    assert_eq!(e1.interaction, e2.interaction);
    assert_eq!(e1.total_gagerr, e2.total_gagerr);
    assert_eq!(e1.part_to_part, e2.part_to_part);
    assert_eq!(e1.total_variation, e2.total_variation);
    assert_eq!(e1.tolerance, e2.tolerance);
    assert_eq!(e1.process_variation, e2.process_variation);
}

#[test]
fn tolerance_doubled_halves_percent_tolerance() {
    let t = table(&ten_by_three(), keep_all()).unwrap();
    let base = StudyEvaluation::from_anova(&t);
    let e1 = StudyEvaluation::from_anova(&t).with_tolerance(Scalar::new(1, 1)).unwrap();
    let e2 = base.with_tolerance(Scalar::new(2, 1)).unwrap();
    for s in [VarianceSource::Repeatability, VarianceSource::TotalGageRR, VarianceSource::TotalVariation] {
        let a = e1.percent_tolerance(s);
        let b = e2.percent_tolerance(s);
        assert_eq!(a.radicand, b.radicand);
        assert_eq!(2 * b.coefficient.num * a.coefficient.den, a.coefficient.num * b.coefficient.den);
        assert_eq!(e1.varcomp(s), e2.varcomp(s));
        assert_eq!(e1.stddev(s), e2.stddev(s));
    }
    let pt = e1.percent_tolerance(VarianceSource::Repeatability);
    assert!(is_frac(pt.coefficient, 515, 1));
}

#[test]
fn nonpositive_configuration_rejected() {
    let t = table(&small(), keep_all()).unwrap();
    let e = StudyEvaluation::from_anova(&t);
    assert_eq!(e.with_tolerance(Scalar::new(0, 1)).err(), Some(ConfigError::NonPositiveTolerance));
    let e = StudyEvaluation::from_anova(&t);
    assert_eq!(e.with_tolerance(Scalar::new(1, 0)).err(), Some(ConfigError::NonPositiveTolerance));
    let e = StudyEvaluation::from_anova(&t);
    assert_eq!(
        e.with_process_variation(Scalar::new(0, 1)).err(),
        Some(ConfigError::NonPositiveProcessVariation)
    );
    let e = StudyEvaluation::from_anova(&t);
    assert_eq!(e.with_process_variation(Scalar::new(6, 1)).unwrap().process_variation, Scalar::new(6, 1));
}

#[test]
fn derived_percentages() {
    let t = table(&small(), keep_all()).unwrap();
    let e = StudyEvaluation::from_anova(&t)
        .with_tolerance(Scalar::new(4, 1))
        .unwrap()
        .with_process_variation(Scalar::new(6, 1))
        .unwrap();
    let pc = e.percent_contribution(VarianceSource::TotalGageRR).unwrap();
    assert!(is_frac(pc, 100 * 10, 30));
    let psv = e.percent_study_variation(VarianceSource::PartToPart).unwrap();
    assert!(is_frac(psv.coefficient, 100, 1));
    assert!(is_frac(psv.radicand, 20, 30));
    let sv = e.study_variation(VarianceSource::Repeatability);
    assert!(is_frac(sv.coefficient, 6, 1));
    assert!(is_frac(sv.radicand, 2, 1));
    let pt = e.percent_tolerance(VarianceSource::Repeatability);
    assert!(is_frac(pt.coefficient, 150, 1));
    assert!(is_frac(pt.radicand, 2, 1));
    let sd = e.stddev(VarianceSource::TotalVariation);
    assert!(is_frac(sd.coefficient, 1, 1));
    assert!(is_frac(sd.radicand, 30, 1));
}

#[test]
fn constant_data_has_undefined_ratios() {
    let mut recs = small();
    for r in recs.iter_mut() {
        r.measured = 7;
    }
    let t = table(&recs, keep_all()).unwrap();
    assert!(t.f_parts.is_none());
    assert!(t.f_operators.is_none());
    assert!(t.f_part_operator.is_none());
    let e = StudyEvaluation::from_anova(&t);
    assert_eq!(e.total_variation, 0);
    assert!(e.percent_contribution(VarianceSource::Repeatability).is_none());
    assert!(e.percent_study_variation(VarianceSource::Repeatability).is_none());
}

#[test]
fn single_replicate_pools_interaction() {
    let recs: Vec<MeasurementRecord> = small().into_iter().filter(|r| r.replicate == 1).collect();
    let t = table(&recs, keep_all()).unwrap();
    assert!(!t.use_interaction);
    assert_eq!(t.replicates, 1);
    assert_eq!(t.dof_repeatability, 1);
    assert!(t.f_part_operator.is_none());
}

#[test]
fn grouping_is_sorted_and_keeps_record_order() {
    let recs = vec![
        rec("b", "y", 1, 1),
        rec("a", "y", 1, 2),
        rec("b", "x", 1, 3),
        rec("ab", "x", 1, 4),
        rec("a", "x", 1, 5),
        rec("b", "y", 2, 6),
    ];
    let ds = GroupedDataset::from_records("demo".to_string(), &recs);
    assert_eq!(ds.name, "demo");
    let ids: Vec<&str> = ds.parts.iter().map(|g| g.id.as_str()).collect();
    assert_eq!(ids, vec!["a", "ab", "b"]);
    assert_eq!(ds.parts[0].values, vec![2, 5]);
    assert_eq!(ds.parts[1].values, vec![4]);
    assert_eq!(ds.parts[2].values, vec![1, 3, 6]);
    let ops: Vec<&str> = ds.operators.iter().map(|g| g.id.as_str()).collect();
    assert_eq!(ops, vec!["x", "y"]);
    assert_eq!(ds.operators[0].values, vec![3, 4, 5]);
    assert_eq!(ds.operators[1].values, vec![1, 2, 6]);
    assert_eq!(ds.observations.len(), 6);
    assert_eq!(ds.observations[3].part, 1);
    assert_eq!(ds.observations[3].operator, 0);
    assert_eq!(ds.observations[3].value, 4);
}

#[test]
fn whole_pipeline() {
    let (ds, res) =
        evaluate_study("s".to_string(), &small(), keep_all(), Scalar::new(1, 1), Scalar::new(515, 100));
    assert_eq!(ds.parts.len(), 2);
    let (t, e) = res.unwrap();
    assert!(is_frac(t.sumsq_total, 124, 1));
    assert!(is_frac(e.varcomp(VarianceSource::TotalVariation), 30, 1));
    let (_, res) = evaluate_study("s".to_string(), &small(), keep_all(), Scalar::new(0, 1), Scalar::new(0, 1));
    assert_eq!(res.err(), Some(StudyError::Config(ConfigError::NonPositiveTolerance)));
    let (_, res) = evaluate_study("s".to_string(), &small(), keep_all(), Scalar::new(1, 1), Scalar::new(0, 1));
    assert_eq!(res.err(), Some(StudyError::Config(ConfigError::NonPositiveProcessVariation)));
    let (_, res) = evaluate_study("s".to_string(), &Vec::new(), keep_all(), Scalar::new(0, 1), Scalar::new(0, 1));
    assert_eq!(res.err(), Some(StudyError::Design(DesignError::TooFewParts)));
}

#[test]
fn plot_titles() {
    assert_eq!(PlotType::PartMeasurement.title(), "Part Measurements");
    assert_eq!(PlotType::OperatorMeasurement.title(), "Operator Measurements");
}

#[test]
fn additive_cells_sums_of_squares_add_up() {
    let t = table(&additive_cells(), keep_all()).unwrap();
    assert!(t.use_interaction);
    assert!(is_frac(t.sumsq_parts, 600000, 1));
    assert!(is_frac(t.sumsq_operators, 2000, 1));
    assert!(is_frac(t.sumsq_part_operator, 0, 1));
    assert!(is_frac(t.sumsq_repeatability, 30, 1));
    assert!(is_frac(t.sumsq_total, 602030, 1));
    assert_eq!(
        t.sumsq_parts.num + t.sumsq_operators.num + t.sumsq_part_operator.num + t.sumsq_repeatability.num,
        t.sumsq_total.num
    );
}

#[test]
fn refused_design_still_grouped() {
    let recs: Vec<MeasurementRecord> = small().into_iter().filter(|r| r.operator_id == "o1").collect();
    let (ds, res) =
        evaluate_study("one".to_string(), &recs, keep_all(), Scalar::new(1, 1), Scalar::new(6, 1));
    assert_eq!(res.err(), Some(StudyError::Design(DesignError::TooFewOperators)));
    assert_eq!(ds.parts.len(), 2);
    assert_eq!(ds.operators.len(), 1);
    assert_eq!(ds.operators[0].values, vec![10, 12, 20, 22]);
}

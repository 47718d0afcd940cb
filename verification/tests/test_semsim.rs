//! Precomputed MICA-based similarity over a small module: a root, one
//! intermediate term, and leaves below it.

use infojenn::compute::CohortIcCalculator;
use infojenn::feature::IndividualFeature;
use infojenn::hierarchy::Hierarchy;
use infojenn::ic::{IcCalculationError, IcRatio};
use infojenn::semsim::{create_measure, precompute, SimilarityMeasure, TermPair};

/// Root 0, intermediate 1, leaves 2 and 3 under 1, and leaf 4 under 1 that
/// no subject ever mentions.
fn small_hpo() -> Hierarchy {
    let ancestors: Vec<Vec<u32>> = vec![
        vec![0],
        vec![0, 1],
        vec![0, 1, 2],
        vec![0, 1, 3],
        vec![0, 1, 4],
    ];
    let descendants: Vec<Vec<u32>> = vec![
        vec![0, 1, 2, 3, 4],
        vec![1, 2, 3, 4],
        vec![2],
        vec![3],
        vec![4],
    ];
    Hierarchy::new(ancestors, descendants).expect("closure data should validate")
}

/// Three subjects: one with leaf 2, one with leaf 3, one with the root
/// itself. Present counts: root 3, term 1 two, each leaf one.
fn small_cohort() -> Vec<Vec<IndividualFeature>> {
    vec![
        vec![IndividualFeature::new(2, true)],
        vec![IndividualFeature::new(3, true)],
        vec![IndividualFeature::new(0, true)],
    ]
}

#[test]
fn test_term_pair_canonicalization() {
    assert_eq!(TermPair::new(3, 5), TermPair::new(5, 3));
    assert_eq!(TermPair::new(4, 4), TermPair::new(4, 4));
    assert!(TermPair::new(1, 2) != TermPair::new(1, 3));
}

#[test]
fn test_precomputed_similarity_measure() {
    let hpo = small_hpo();
    let cohort = small_cohort();
    let calculator = CohortIcCalculator::new(&hpo, 0);
    let container = calculator.compute_ic(&cohort).unwrap();
    assert_eq!(container.pop_present(), 3);

    let measure = precompute(&hpo, &container);

    let leaf2 = IndividualFeature::new(2, true);
    let leaf3 = IndividualFeature::new(3, true);
    let root = IndividualFeature::new(0, true);

    // The MICA of the two leaves is term 1, seen present twice out of 3.
    assert_eq!(measure.compute(&leaf2, &leaf3), Ok(IcRatio { num: 3, den: 2 }));

    // Symmetry.
    assert_eq!(
        measure.compute(&leaf2, &leaf3),
        measure.compute(&leaf3, &leaf2)
    );

    // Self-similarity is the term's own present information content.
    assert_eq!(measure.compute(&leaf2, &leaf2), Ok(IcRatio { num: 3, den: 1 }));
    let el_present = container.get_present_term_ic(2).unwrap();
    assert_eq!(measure.compute(&leaf2, &leaf2), Ok(el_present));

    // The only common ancestor of a leaf and the root is the root itself,
    // whose information content is zero: the pair is omitted and defaults
    // to zero.
    assert_eq!(measure.compute(&root, &leaf2), Ok(IcRatio { num: 3, den: 3 }));

    // A hierarchy term that never accumulated counts has no informative
    // common ancestor entry either.
    let silent = IndividualFeature::new(4, true);
    assert_eq!(measure.compute(&silent, &leaf2), Ok(IcRatio { num: 3, den: 3 }));
}

#[test]
fn test_present_vs_excluded_always_fails() {
    let hpo = small_hpo();
    let cohort = small_cohort();
    let calculator = CohortIcCalculator::new(&hpo, 0);
    let container = calculator.compute_ic(&cohort).unwrap();
    let measure = precompute(&hpo, &container);

    let present = IndividualFeature::new(2, true);
    let excluded = IndividualFeature::new(3, false);

    assert!(measure.compute(&present, &excluded).is_err());
    assert!(measure.compute(&excluded, &present).is_err());
    assert!(measure.compute(&present, &present).is_ok());
}

#[test]
fn test_create_measure() {
    let hpo = small_hpo();
    let cohort = small_cohort();
    let calculator = CohortIcCalculator::new(&hpo, 0);
    let measure = create_measure(&calculator, &hpo, &cohort).unwrap();

    let leaf2 = IndividualFeature::new(2, true);
    let leaf3 = IndividualFeature::new(3, true);
    assert_eq!(measure.compute(&leaf2, &leaf3), Ok(IcRatio { num: 3, den: 2 }));
}

#[test]
fn test_create_measure_propagates_calculator_errors() {
    let hpo = small_hpo();
    let cohort: Vec<Vec<IndividualFeature>> = Vec::new();
    let calculator = CohortIcCalculator::new(&hpo, 42);
    match create_measure(&calculator, &hpo, &cohort) {
        Err(e) => assert_eq!(e, IcCalculationError::UnknownModuleRoot),
        Ok(_) => panic!("an unknown module root must fail"),
    }
}

#[test]
fn test_similarity_bounded_by_max_present_ic() {
    let hpo = small_hpo();
    let cohort = small_cohort();
    let calculator = CohortIcCalculator::new(&hpo, 0);
    let container = calculator.compute_ic(&cohort).unwrap();
    let measure = precompute(&hpo, &container);

    // The largest present information content in the container is that of
    // the leaves: count 1 out of 3.
    let max_ic = (3.0f64 / 1.0).log2();
    for a in 0..5u32 {
        for b in 0..5u32 {
            let left = IndividualFeature::new(a, true);
            let right = IndividualFeature::new(b, true);
            let v = measure.compute(&left, &right).unwrap();
            let value = (v.num as f64 / v.den as f64).log2();
            assert!(value >= 0.0);
            assert!(value <= max_ic);
        }
    }
}

//! Cohort information-content calculation over a reference cohort of five
//! subjects, each annotated with a fixed set of phenotype terms under a
//! phenotype-abnormality module root.

use infojenn::compute::{CohortIcCalculator, UnknownTermPolicy};
use infojenn::feature::IndividualFeature;
use infojenn::hierarchy::Hierarchy;
use infojenn::ic::{IcCalculationError, IcRatio};

/// The module root: the analogue of the phenotypic-abnormality term.
const ROOT: &str = "HP:0000118";

/// Dense identifiers for the terms of the reference cohort.
fn term_id_of(curie: &str) -> u32 {
    match curie {
        "HP:0000118" => 0,
        "HP:0000218" => 1,
        "HP:0000486" => 2,
        "HP:0000501" => 3,
        "HP:0000541" => 4,
        "HP:0000545" => 5,
        "HP:0000767" => 6,
        "HP:0000768" => 7,
        "HP:0001065" => 8,
        "HP:0001083" => 9,
        "HP:0001166" => 10,
        "HP:0001382" => 11,
        "HP:0001634" => 12,
        "HP:0002616" => 13,
        "HP:0002650" => 14,
        "HP:0012773" => 15,
        _ => panic!("unknown term"),
    }
}

/// A flat module: the root with fifteen leaf children.
fn load_hpo() -> Hierarchy {
    let n: u32 = 16;
    let mut ancestors: Vec<Vec<u32>> = Vec::new();
    let mut descendants: Vec<Vec<u32>> = Vec::new();
    ancestors.push(vec![0]);
    descendants.push((0..n).collect());
    for t in 1..n {
        ancestors.push(vec![0, t]);
        descendants.push(vec![t]);
    }
    Hierarchy::new(ancestors, descendants).expect("closure data should validate")
}

fn make_study_subject(phenotypes: &[(&str, bool)]) -> Vec<IndividualFeature> {
    phenotypes
        .iter()
        .map(|&(curie, is_present)| IndividualFeature::new(term_id_of(curie), is_present))
        .collect()
}

fn fbn1_ectopia_lentis_subjects() -> Vec<Vec<IndividualFeature>> {
    vec![
        // FBN1 -> BM
        make_study_subject(&[
            ("HP:0001083", true),
            ("HP:0001065", true),
            ("HP:0012773", true),
            ("HP:0000501", false),
            ("HP:0000545", false),
            ("HP:0000486", false),
            ("HP:0002650", false),
            ("HP:0001382", false),
            ("HP:0000767", false),
            ("HP:0001166", false),
            ("HP:0000541", false),
            ("HP:0000768", false),
            ("HP:0000218", false),
            ("HP:0002616", false),
            ("HP:0001634", false),
        ]),
        // FBN1 -> JL
        make_study_subject(&[
            ("HP:0001083", true),
            ("HP:0000545", true),
            ("HP:0001382", true),
            ("HP:0000768", true),
            ("HP:0000218", true),
            ("HP:0001065", true),
            ("HP:0000501", false),
            ("HP:0000486", false),
            ("HP:0002650", false),
            ("HP:0000767", false),
            ("HP:0001166", false),
            ("HP:0000541", false),
            ("HP:0002616", false),
            ("HP:0001634", false),
            ("HP:0012773", false),
        ]),
        // FBN1 -> OP
        make_study_subject(&[
            ("HP:0001083", true),
            ("HP:0000545", true),
            ("HP:0001166", true),
            ("HP:0000218", true),
            ("HP:0001634", true),
            ("HP:0012773", true),
            ("HP:0000501", false),
            ("HP:0000486", false),
            ("HP:0002650", false),
            ("HP:0001382", false),
            ("HP:0000767", false),
            ("HP:0000541", false),
            ("HP:0000768", false),
            ("HP:0001065", false),
            ("HP:0002616", false),
        ]),
        // FBN1 -> RWT
        make_study_subject(&[
            ("HP:0001083", true),
            ("HP:0000545", true),
            ("HP:0000486", true),
            ("HP:0001382", true),
            ("HP:0001065", true),
            ("HP:0000501", false),
            ("HP:0002650", false),
            ("HP:0000767", false),
            ("HP:0001166", false),
            ("HP:0000541", false),
            ("HP:0000768", false),
            ("HP:0000218", false),
            ("HP:0002616", false),
            ("HP:0001634", false),
            ("HP:0012773", false),
        ]),
        // FBN1 -> VW
        make_study_subject(&[
            ("HP:0001083", true),
            ("HP:0000501", true),
            ("HP:0002650", true),
            ("HP:0000218", true),
            ("HP:0001065", true),
            ("HP:0000545", false),
            ("HP:0000486", false),
            ("HP:0001382", false),
            ("HP:0000767", false),
            ("HP:0001166", false),
            ("HP:0000541", false),
            ("HP:0000768", false),
            ("HP:0002616", false),
            ("HP:0001634", false),
            ("HP:0012773", false),
        ]),
    ]
}

/// The real value an exact information-content ratio stands for.
fn ic_value(r: IcRatio) -> f64 {
    (r.num as f64 / r.den as f64).log2()
}

#[test]
fn test_cohort_ic_calculator() {
    let hpo = load_hpo();
    let fbn1 = fbn1_ectopia_lentis_subjects();

    let pa = term_id_of(ROOT);
    let calculator = CohortIcCalculator::new(&hpo, pa);

    let ic_container = calculator.compute_ic(&fbn1).expect("all terms are known");

    // The root plus all fifteen leaves accumulate counts.
    assert_eq!(ic_container.len(), 16);

    // No NaNs allowed!
    assert!(!ic_container.iter_term_ids().iter().any(|&t| {
        let term_ic = ic_container.get_term_ic(t).unwrap();
        ic_value(term_ic.present).is_nan() || ic_value(term_ic.excluded).is_nan()
    }));

    let pa_ic = ic_container.get_term_ic(pa);
    assert!(pa_ic.is_some());
    if let Some(pa_ic) = pa_ic {
        assert_eq!(ic_value(pa_ic.present), 0.);
        assert_eq!(ic_value(pa_ic.excluded), f64::INFINITY);
    }

    let myopia = term_id_of("HP:0000545");
    let myopia_ic = ic_container.get_term_ic(myopia);
    assert!(myopia_ic.is_some());
    if let Some(myopia_ic) = myopia_ic {
        assert_eq!(ic_value(myopia_ic.present), 3.0588936890535687);
        assert_eq!(ic_value(myopia_ic.excluded), 1.3219280948873624);
    }

    let ectopia_lentis = term_id_of("HP:0001083");
    let el_ic = ic_container.get_term_ic(ectopia_lentis);
    assert!(el_ic.is_some());
    if let Some(el_ic) = el_ic {
        assert_eq!(ic_value(el_ic.present), 2.3219280948873622);
        assert_eq!(ic_value(el_ic.excluded), f64::INFINITY);
    }
}

#[test]
fn test_exact_counts_of_reference_cohort() {
    let hpo = load_hpo();
    let fbn1 = fbn1_ectopia_lentis_subjects();
    let calculator = CohortIcCalculator::new(&hpo, term_id_of(ROOT));
    let c = calculator.compute_ic(&fbn1).unwrap();

    // 25 present observations in total; the largest excluded count is 5.
    assert_eq!(c.pop_present(), 25);
    assert_eq!(c.pop_excluded(), 5);

    // Exact count ratios, before any floating-point rendering.
    let myopia = c.get_term_ic(term_id_of("HP:0000545")).unwrap();
    assert_eq!(myopia.present, IcRatio { num: 25, den: 3 });
    assert_eq!(myopia.excluded, IcRatio { num: 5, den: 2 });

    let el = c.get_term_ic(term_id_of("HP:0001083")).unwrap();
    assert_eq!(el.present, IcRatio { num: 25, den: 5 });
    assert_eq!(el.excluded, IcRatio { num: 5, den: 0 });
    assert!(el.excluded.check_infinite());
    assert!(!el.excluded.check_nan());

    // Deterministic, sorted iteration over all sixteen terms.
    let ids = c.iter_term_ids();
    assert_eq!(ids, (0..16).collect::<Vec<u32>>());
}

#[test]
fn test_unknown_module_root_fails() {
    let hpo = load_hpo();
    let calculator = CohortIcCalculator::new(&hpo, 99);
    let cohort = vec![make_study_subject(&[("HP:0000545", true)])];
    match calculator.compute_ic(&cohort) {
        Err(e) => assert_eq!(e, IcCalculationError::UnknownModuleRoot),
        Ok(_) => panic!("an unknown module root must fail"),
    }
}

#[test]
fn test_unknown_annotation_term_fails_when_strict() {
    let hpo = load_hpo();
    let calculator = CohortIcCalculator::new(&hpo, term_id_of(ROOT));
    let cohort = vec![vec![IndividualFeature::new(77, true)]];
    match calculator.compute_ic(&cohort) {
        Err(e) => assert_eq!(e, IcCalculationError::UnknownAnnotationTerm),
        Ok(_) => panic!("an unknown annotation term must fail under the strict policy"),
    }
}

#[test]
fn test_unknown_annotation_term_skipped_when_ignored() {
    let hpo = load_hpo();
    let calculator =
        CohortIcCalculator::with_unknown_term_policy(&hpo, term_id_of(ROOT), UnknownTermPolicy::Ignore);
    let cohort = vec![vec![
        IndividualFeature::new(77, true),
        IndividualFeature::new(term_id_of("HP:0000545"), true),
    ]];
    let c = calculator.compute_ic(&cohort).unwrap();
    // Only the known annotation counts: myopia and the root.
    assert_eq!(c.len(), 2);
    assert_eq!(c.pop_present(), 1);
}

#[test]
fn test_empty_cohort_yields_empty_container() {
    let hpo = load_hpo();
    let calculator = CohortIcCalculator::new(&hpo, term_id_of(ROOT));
    let cohort: Vec<Vec<IndividualFeature>> = Vec::new();
    let c = calculator.compute_ic(&cohort).unwrap();
    assert!(c.is_empty());
    assert_eq!(c.len(), 0);
    assert_eq!(c.pop_present(), 0);
    assert_eq!(c.pop_excluded(), 0);
    assert!(c.get_term_ic(0).is_none());
}

#[test]
fn test_annotation_outside_module_is_not_counted() {
    // Two disconnected roots: 0 with child 1, and 2 with child 3.
    let ancestors: Vec<Vec<u32>> = vec![vec![0], vec![0, 1], vec![2], vec![2, 3]];
    let descendants: Vec<Vec<u32>> = vec![vec![0, 1], vec![1], vec![2, 3], vec![3]];
    let hpo = Hierarchy::new(ancestors, descendants).unwrap();
    let calculator = CohortIcCalculator::new(&hpo, 0);
    let cohort = vec![vec![
        IndividualFeature::new(1, true),
        IndividualFeature::new(3, true),
    ]];
    let c = calculator.compute_ic(&cohort).unwrap();
    // Only the module of root 0 accumulates counts.
    assert_eq!(c.iter_term_ids(), vec![0, 1]);
    assert_eq!(c.pop_present(), 1);
}

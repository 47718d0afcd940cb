//! The observation model, annotated items, hierarchy validation, and the
//! container's lookup interface.

use infojenn::compute::CohortIcCalculator;
use infojenn::feature::{AggregatedFeature, IndividualFeature, ObservationState};
use infojenn::feature::{FrequencyAware, Identified, Observable};
use infojenn::hierarchy::Hierarchy;
use infojenn::ic::IcRatio;
use infojenn::item::AnnotatedItem;

#[test]
fn test_individual_feature() {
    let present = IndividualFeature::new(5, true);
    assert_eq!(present.identifier(), 5);
    assert_eq!(present.observation_state(), ObservationState::Present);
    assert!(present.is_present());
    assert!(!present.is_excluded());
    assert_eq!(present.numerator(), 1);
    assert_eq!(present.denominator(), 1);

    let excluded = IndividualFeature::new(7, false);
    assert_eq!(excluded.observation_state(), ObservationState::Excluded);
    assert!(excluded.is_excluded());
    assert!(!excluded.is_present());
}

#[test]
fn test_aggregated_feature() {
    let f = AggregatedFeature::new(9, ObservationState::Present, 4, 10);
    assert_eq!(f.identifier(), 9);
    assert_eq!(f.observation_state(), ObservationState::Present);
    assert_eq!(f.numerator(), 4);
    assert_eq!(f.denominator(), 10);
    assert!(f.is_present());
}

#[test]
fn test_annotated_item_filters() {
    let member: Vec<IndividualFeature> = vec![
        IndividualFeature::new(1, true),
        IndividualFeature::new(2, false),
        IndividualFeature::new(3, true),
    ];
    assert_eq!(member.annotations().len(), 3);

    let present = member.present_annotations();
    assert_eq!(present.len(), 2);
    assert_eq!(present[0].identifier(), 1);
    assert_eq!(present[1].identifier(), 3);

    let excluded = member.excluded_annotations();
    assert_eq!(excluded.len(), 1);
    assert_eq!(excluded[0].identifier(), 2);
}

#[test]
fn test_hierarchy_queries() {
    let ancestors: Vec<Vec<u32>> = vec![vec![0], vec![0, 1], vec![0, 1, 2]];
    let descendants: Vec<Vec<u32>> = vec![vec![0, 1, 2], vec![1, 2], vec![2]];
    let h = Hierarchy::new(ancestors, descendants).unwrap();
    assert_eq!(h.term_count(), 3);
    assert!(h.resolve(2));
    assert!(!h.resolve(3));
    assert_eq!(h.ancestors_inclusive(2).clone(), vec![0, 1, 2]);
    assert_eq!(h.descendants_inclusive(1).clone(), vec![1, 2]);
}

#[test]
fn test_hierarchy_rejects_bad_closure_data() {
    // Unsorted ancestor list.
    assert!(Hierarchy::new(vec![vec![0], vec![1, 0]], vec![vec![0, 1], vec![1]]).is_none());
    // A list missing its own term.
    assert!(Hierarchy::new(vec![vec![0], vec![0]], vec![vec![0, 1], vec![1]]).is_none());
    // An element outside the term range.
    assert!(Hierarchy::new(vec![vec![0], vec![0, 1, 5]], vec![vec![0, 1], vec![1]]).is_none());
    // Broken duality: 0 lists 1 as descendant, but 1 does not list 0 as
    // ancestor.
    assert!(Hierarchy::new(vec![vec![0], vec![1]], vec![vec![0, 1], vec![1]]).is_none());
    // Mismatched family lengths.
    assert!(Hierarchy::new(vec![vec![0]], vec![vec![0], vec![1]]).is_none());
    // The empty hierarchy is fine.
    assert!(Hierarchy::new(Vec::new(), Vec::new()).is_some());
}

#[test]
fn test_container_lookups() {
    let ancestors: Vec<Vec<u32>> = vec![vec![0], vec![0, 1]];
    let descendants: Vec<Vec<u32>> = vec![vec![0, 1], vec![1]];
    let h = Hierarchy::new(ancestors, descendants).unwrap();
    let calculator = CohortIcCalculator::new(&h, 0);
    let cohort = vec![vec![
        IndividualFeature::new(1, true),
        IndividualFeature::new(1, false),
    ]];
    let c = calculator.compute_ic(&cohort).unwrap();

    assert_eq!(c.len(), 2);
    assert_eq!(c.pop_present(), 1);
    assert_eq!(c.pop_excluded(), 1);
    assert_eq!(c.get_present_term_ic(1), Some(IcRatio { num: 1, den: 1 }));
    assert_eq!(c.get_excluded_term_ic(1), Some(IcRatio { num: 1, den: 1 }));
    // The root receives the present observation but no excluded one.
    assert_eq!(c.get_excluded_term_ic(0), Some(IcRatio { num: 1, den: 0 }));
    assert!(c.get_term_ic(9).is_none());
    assert!(c.get_present_term_ic(9).is_none());
}

#[test]
fn test_weighted_aggregated_cohort() {
    // A chain: 0 above 1 above 2.
    let ancestors: Vec<Vec<u32>> = vec![vec![0], vec![0, 1], vec![0, 1, 2]];
    let descendants: Vec<Vec<u32>> = vec![vec![0, 1, 2], vec![1, 2], vec![2]];
    let h = Hierarchy::new(ancestors, descendants).unwrap();
    let calculator = CohortIcCalculator::new(&h, 0);

    let cohort = vec![
        vec![AggregatedFeature::new(2, ObservationState::Present, 3, 10)],
        vec![AggregatedFeature::new(1, ObservationState::Excluded, 2, 10)],
    ];
    let c = calculator.compute_ic(&cohort).unwrap();

    // The present weight 3 propagates from the leaf up to the root; the
    // excluded weight 2 propagates from term 1 down to the leaf.
    assert_eq!(c.pop_present(), 3);
    assert_eq!(c.pop_excluded(), 2);
    let ic1 = c.get_term_ic(1).unwrap();
    assert_eq!(ic1.present, IcRatio { num: 3, den: 3 });
    assert_eq!(ic1.excluded, IcRatio { num: 2, den: 2 });
    let ic2 = c.get_term_ic(2).unwrap();
    assert_eq!(ic2.present, IcRatio { num: 3, den: 3 });
    assert_eq!(ic2.excluded, IcRatio { num: 2, den: 2 });
    let ic0 = c.get_term_ic(0).unwrap();
    assert_eq!(ic0.present, IcRatio { num: 3, den: 3 });
    assert_eq!(ic0.excluded, IcRatio { num: 2, den: 0 });
}

#[test]
fn test_present_only_cohort_has_undefined_excluded_ic() {
    let ancestors: Vec<Vec<u32>> = vec![vec![0], vec![0, 1]];
    let descendants: Vec<Vec<u32>> = vec![vec![0, 1], vec![1]];
    let h = Hierarchy::new(ancestors, descendants).unwrap();
    let calculator = CohortIcCalculator::new(&h, 0);
    let cohort = vec![vec![IndividualFeature::new(1, true)]];
    let c = calculator.compute_ic(&cohort).unwrap();

    // With no excluded observation anywhere, the excluded population count
    // is zero and every excluded value is the undefined 0 / 0 form.
    let ic = c.get_term_ic(1).unwrap();
    assert!(ic.excluded.check_nan());
    assert!(!ic.present.check_nan());
    let value = (ic.excluded.num as f64 / ic.excluded.den as f64).log2();
    assert!(value.is_nan());
}

#[test]
fn test_repeated_annotation_counts_twice() {
    let ancestors: Vec<Vec<u32>> = vec![vec![0], vec![0, 1]];
    let descendants: Vec<Vec<u32>> = vec![vec![0, 1], vec![1]];
    let h = Hierarchy::new(ancestors, descendants).unwrap();
    let calculator = CohortIcCalculator::new(&h, 0);
    let cohort = vec![vec![
        IndividualFeature::new(1, true),
        IndividualFeature::new(1, true),
    ]];
    let c = calculator.compute_ic(&cohort).unwrap();
    assert_eq!(c.pop_present(), 2);
    assert_eq!(c.get_present_term_ic(1), Some(IcRatio { num: 2, den: 2 }));
}

#[test]
fn test_excluding_the_root_excludes_every_descendant() {
    let ancestors: Vec<Vec<u32>> = vec![vec![0], vec![0, 1], vec![0, 1, 2]];
    let descendants: Vec<Vec<u32>> = vec![vec![0, 1, 2], vec![1, 2], vec![2]];
    let h = Hierarchy::new(ancestors, descendants).unwrap();
    let calculator = CohortIcCalculator::new(&h, 0);
    let cohort = vec![vec![IndividualFeature::new(0, false)]];
    let c = calculator.compute_ic(&cohort).unwrap();

    // The exclusion propagates down to every term of the module.
    assert_eq!(c.len(), 3);
    assert_eq!(c.pop_excluded(), 1);
    for t in 0..3u32 {
        assert_eq!(c.get_excluded_term_ic(t), Some(IcRatio { num: 1, den: 1 }));
        // With no present observation anywhere, present values are the
        // undefined 0 / 0 form.
        assert!(c.get_present_term_ic(t).unwrap().check_nan());
    }
}

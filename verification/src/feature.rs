//! Observation model: the polarity of an observation, traits describing
//! annotated features, and the two concrete feature representations.

use vstd::prelude::*;

verus! {

/// Identifier of an ontology term.
///
/// Terms are identified by dense indices into the hierarchy under
/// consideration: a hierarchy over `n` terms uses the identifiers
/// `0 .. n`. Identity and ordering of terms are identity and ordering
/// of the indices.
pub type TermId = u32;

/// Whether a feature was present or excluded in the study subject(s).
#[derive(Debug, Clone, Copy, PartialEq, Eq, Structural, Hash)]
pub enum ObservationState {
    /// The feature was present.
    Present,
    /// Presence of the feature was explicitly ruled out by an investigation.
    Excluded,
}

/// An entity identified by an ontology term.
pub trait Identified {
    /// The term identifier, as seen by specifications.
    spec fn spec_identifier(&self) -> TermId;

    /// Get the term identifier.
    fn identifier(&self) -> (t: TermId)
        ensures
            t == self.spec_identifier(),
    ;
}

/// An `Observable` entity is either in a *present* or an *excluded* state
/// in the investigated item.
///
/// For instance, a phenotypic feature such as polydactyly can either be
/// present or excluded in the study subject.
pub trait Observable {
    /// The observation state, as seen by specifications.
    spec fn spec_observation_state(&self) -> ObservationState;

    /// Get the observation state of the feature.
    fn observation_state(&self) -> (s: ObservationState)
        ensures
            s == self.spec_observation_state(),
    ;

    /// Test if the feature was observed in one or more items.
    fn is_present(&self) -> (r: bool)
        ensures
            r == (self.spec_observation_state() is Present),
    {
        match self.observation_state() {
            ObservationState::Present => true,
            ObservationState::Excluded => false,
        }
    }

    /// Test if the feature was not observed in any of the items.
    fn is_excluded(&self) -> (r: bool)
        ensures
            r == (self.spec_observation_state() is Excluded),
    {
        match self.observation_state() {
            ObservationState::Present => false,
            ObservationState::Excluded => true,
        }
    }
}

/// A `FrequencyAware` entity describes how many annotated items contributed
/// an observation of a feature.
///
/// The absolute counts are accessible via the `numerator` and `denominator`
/// attributes: the numerator counts the items carrying the observation, the
/// denominator the items investigated for it. The implementor must ensure
/// that the denominator is positive.
pub trait FrequencyAware {
    /// The numerator, as seen by specifications.
    spec fn spec_numerator(&self) -> u32;

    /// The denominator, as seen by specifications.
    spec fn spec_denominator(&self) -> u32;

    /// Get the count of annotated items where the feature was observed.
    fn numerator(&self) -> (n: u32)
        ensures
            n == self.spec_numerator(),
    ;

    /// Get the total count of annotated items investigated for the feature.
    fn denominator(&self) -> (d: u32)
        ensures
            d == self.spec_denominator(),
    ;
}

/// A feature of one or more study subjects: identified, observable, and
/// aware of its frequency.
pub trait Feature: Identified + Observable + FrequencyAware {}

/// A feature of a single subject.
#[derive(Debug, Clone, Copy, PartialEq, Eq, Structural, Hash)]
pub struct IndividualFeature {
    identifier: TermId,
    observation_state: ObservationState,
}

impl IndividualFeature {
    /// Build a feature of a single subject; `is_present` selects the
    /// observation state.
    pub fn new(identifier: TermId, is_present: bool) -> (f: Self)
        ensures
            f.spec_identifier() == identifier,
            f.spec_observation_state() == (if is_present {
                ObservationState::Present
            } else {
                ObservationState::Excluded
            }),
    {
        IndividualFeature {
            identifier,
            observation_state: match is_present {
                true => ObservationState::Present,
                false => ObservationState::Excluded,
            },
        }
    }
}

impl Identified for IndividualFeature {
    closed spec fn spec_identifier(&self) -> TermId {
        self.identifier
    }

    fn identifier(&self) -> (t: TermId) {
        self.identifier
    }
}

impl Observable for IndividualFeature {
    closed spec fn spec_observation_state(&self) -> ObservationState {
        self.observation_state
    }

    fn observation_state(&self) -> (s: ObservationState) {
        self.observation_state
    }
}

impl FrequencyAware for IndividualFeature {
    open spec fn spec_numerator(&self) -> u32 {
        1
    }

    open spec fn spec_denominator(&self) -> u32 {
        1
    }

    fn numerator(&self) -> (n: u32) {
        1
    }

    fn denominator(&self) -> (d: u32) {
        1
    }
}

impl Feature for IndividualFeature {}

/// An aggregated feature represents data for the feature ascertained from a
/// whole cohort.
#[derive(Debug, Clone, Copy, PartialEq, Eq, Structural, Hash)]
pub struct AggregatedFeature {
    identifier: TermId,
    observation_state: ObservationState,
    numerator: u32,
    denominator: u32,
}

impl AggregatedFeature {
    /// Build an aggregated feature from its parts.
    pub fn new(
        identifier: TermId,
        observation_state: ObservationState,
        numerator: u32,
        denominator: u32,
    ) -> (f: Self)
        ensures
            f.spec_identifier() == identifier,
            f.spec_observation_state() == observation_state,
            f.spec_numerator() == numerator,
            f.spec_denominator() == denominator,
    {
        AggregatedFeature {
            identifier,
            observation_state,
            numerator,
            denominator,
        }
    }
}

impl Identified for AggregatedFeature {
    closed spec fn spec_identifier(&self) -> TermId {
        self.identifier
    }

    fn identifier(&self) -> (t: TermId) {
        self.identifier
    }
}

impl Observable for AggregatedFeature {
    closed spec fn spec_observation_state(&self) -> ObservationState {
        self.observation_state
    }

    fn observation_state(&self) -> (s: ObservationState) {
        self.observation_state
    }
}

impl FrequencyAware for AggregatedFeature {
    closed spec fn spec_numerator(&self) -> u32 {
        self.numerator
    }

    closed spec fn spec_denominator(&self) -> u32 {
        self.denominator
    }

    fn numerator(&self) -> (n: u32) {
        self.numerator
    }

    fn denominator(&self) -> (d: u32) {
        self.denominator
    }
}

impl Feature for AggregatedFeature {}

} // verus!

//! Information-content values and the read-only container that maps each
//! term to its value pair.
//!
//! Information content is kept in exact form: an [`IcRatio`] holds the
//! population count and the term's own count, and stands for the real number
//! `log2(num / den)`. Keeping the two integers avoids any rounding and makes
//! the edge cases explicit: a zero `den` under a positive `num` is positive
//! infinity (the term was never observed), and `0 / 0` is the undefined
//! value that floating-point arithmetic would render as a NaN.

use vstd::prelude::*;

verus! {

use crate::feature::TermId;
use crate::hierarchy::strictly_increasing;
use crate::seqs::{assoc_map, distinct_keys, lemma_assoc_map_index};

/// An exact information-content value, standing for `log2(num / den)`.
#[derive(Debug, Clone, Copy, PartialEq, Eq, Structural, Hash)]
pub struct IcRatio {
    /// The population count: how often the relevant polarity was observed at
    /// the reference point of the normalization.
    pub num: u64,
    /// The term's own count: how often the term itself received the
    /// observation.
    pub den: u64,
}

impl IcRatio {
    /// The value is undefined (`0 / 0`): rendered as a NaN by
    /// floating-point arithmetic.
    pub open spec fn is_nan(self) -> bool {
        self.num == 0 && self.den == 0
    }

    /// The value is positive infinity: a positive population divided by a
    /// zero count.
    pub open spec fn is_infinite(self) -> bool {
        self.num > 0 && self.den == 0
    }

    /// The value is exactly zero: `log2` of a ratio of one.
    pub open spec fn is_zero(self) -> bool {
        self.num == self.den && self.num > 0
    }

    /// The value is undefined (`0 / 0`).
    pub fn check_nan(&self) -> (r: bool)
        ensures
            r == self.is_nan(),
    {
        self.num == 0 && self.den == 0
    }

    /// The value is positive infinity.
    pub fn check_infinite(&self) -> (r: bool)
        ensures
            r == self.is_infinite(),
    {
        self.num > 0 && self.den == 0
    }
}

/// Order of two information-content values over the same population count:
/// `ic_le(a, b)` says that `log2(a.num / a.den) <= log2(b.num / b.den)`.
/// Since the shared `num` is positive, the value falls as the count grows,
/// and a zero count is above everything.
pub open spec fn ic_le(a: IcRatio, b: IcRatio) -> bool
    recommends
        a.num == b.num,
        a.num > 0,
{
    b.den == 0 || (a.den > 0 && a.den >= b.den)
}

/// The information content of one term: of observing it present, and of
/// observing it excluded.
#[derive(Debug, Clone, Copy, PartialEq, Eq, Structural, Hash)]
pub struct TermIC {
    /// Information content of a present observation of the term.
    pub present: IcRatio,
    /// Information content of an excluded observation of the term.
    pub excluded: IcRatio,
}

/// Per-term accumulator pair: total present and excluded counts.
#[derive(Debug, Clone, Copy, PartialEq, Eq, Structural, Hash)]
pub struct TermCount {
    /// Weight of the present observations that reached the term.
    pub present: u64,
    /// Weight of the excluded observations that reached the term.
    pub excluded: u64,
}

/// Failure of an information-content calculation.
#[derive(Debug, Clone, Copy, PartialEq, Eq, Structural, Hash)]
pub enum IcCalculationError {
    /// The configured module root is not a term of the hierarchy.
    UnknownModuleRoot,
    /// An annotation references a term that is not in the hierarchy (only
    /// reported under [`crate::compute::UnknownTermPolicy::Strict`]).
    UnknownAnnotationTerm,
}

/// A read-only mapping from term identifier to its information-content pair,
/// produced once per calculation and immutable afterwards.
///
/// The entries are held sorted by term identifier, so iteration order is
/// deterministic.
pub struct IcContainer {
    pop_present: u64,
    pop_excluded: u64,
    entries: Vec<(TermId, TermCount)>,
}

impl IcContainer {
    /// The entries, sorted strictly by term identifier.
    pub closed spec fn entries_seq(self) -> Seq<(TermId, TermCount)> {
        self.entries@
    }

    /// The population count for present observations: the present count
    /// recorded at the module root.
    pub closed spec fn spec_pop_present(self) -> u64 {
        self.pop_present
    }

    /// The population count for excluded observations: the largest excluded
    /// count recorded at any term.
    pub closed spec fn spec_pop_excluded(self) -> u64 {
        self.pop_excluded
    }

    /// The contained term identifiers, in ascending order.
    pub open spec fn id_seq(self) -> Seq<TermId> {
        self.entries_seq().map_values(|e: (TermId, TermCount)| e.0)
    }

    /// Whether the container holds an entry for `t`.
    pub open spec fn contains_term(self, t: TermId) -> bool {
        self.id_seq().contains(t)
    }

    /// The counts per contained term.
    pub open spec fn count_map(self) -> Map<TermId, TermCount> {
        assoc_map(self.entries_seq())
    }

    /// The information content of contained term `t`, assembled from its
    /// counts and the two population counts.
    pub open spec fn spec_term_ic(self, t: TermId) -> TermIC {
        TermIC {
            present: IcRatio { num: self.spec_pop_present(), den: self.count_map()[t].present },
            excluded: IcRatio { num: self.spec_pop_excluded(), den: self.count_map()[t].excluded },
        }
    }

    /// The container is well-formed: entries sorted strictly by term, every
    /// count bounded by its population count, and zero populations when
    /// empty.
    pub open spec fn wf(self) -> bool {
        &&& strictly_increasing(self.id_seq())
        &&& forall|i: int|
            0 <= i < self.entries_seq().len() ==> (#[trigger] self.entries_seq()[i]).1.present
                <= self.spec_pop_present()
        &&& forall|i: int|
            0 <= i < self.entries_seq().len() ==> (#[trigger] self.entries_seq()[i]).1.excluded
                <= self.spec_pop_excluded()
        &&& (self.entries_seq().len() == 0 ==> self.spec_pop_present() == 0
            && self.spec_pop_excluded() == 0)
    }

    /// Sorted entries never repeat a key.
    pub proof fn lemma_distinct(self)
        requires
            strictly_increasing(self.id_seq()),
        ensures
            distinct_keys(self.entries_seq()),
    {
        assert forall|i: int, j: int|
            0 <= i < j < self.entries_seq().len() implies (#[trigger] self.entries_seq()[i]).0 != (
        #[trigger] self.entries_seq()[j]).0 by {
            assert(self.id_seq()[i] < self.id_seq()[j]);
        }
    }

    /// Assemble a container from its parts; the calculator is the only
    /// intended caller.
    pub(crate) fn from_parts(
        pop_present: u64,
        pop_excluded: u64,
        entries: Vec<(TermId, TermCount)>,
    ) -> (r: IcContainer)
        ensures
            r.spec_pop_present() == pop_present,
            r.spec_pop_excluded() == pop_excluded,
            r.entries_seq() == entries@,
    {
        IcContainer { pop_present, pop_excluded, entries }
    }

    /// The population count for present observations.
    pub fn pop_present(&self) -> (r: u64)
        ensures
            r == self.spec_pop_present(),
    {
        self.pop_present
    }

    /// The population count for excluded observations.
    pub fn pop_excluded(&self) -> (r: u64)
        ensures
            r == self.spec_pop_excluded(),
    {
        self.pop_excluded
    }

    /// Number of terms held by the container.
    pub fn len(&self) -> (r: usize)
        ensures
            r == self.entries_seq().len(),
    {
        self.entries.len()
    }

    /// Whether the container holds no term at all.
    pub fn is_empty(&self) -> (r: bool)
        ensures
            r == (self.entries_seq().len() == 0),
    {
        self.entries.len() == 0
    }

    /// Index of the entry for `t`, by binary search.
    fn find_entry(&self, t: TermId) -> (r: Option<usize>)
        requires
            strictly_increasing(self.id_seq()),
        ensures
            match r {
                Some(i) => i < self.entries_seq().len() && self.entries_seq()[i as int].0 == t,
                None => !self.contains_term(t),
            },
    {
        let mut lo: usize = 0;
        let mut hi: usize = self.entries.len();
        while lo < hi
            invariant
                lo <= hi <= self.entries_seq().len(),
                strictly_increasing(self.id_seq()),
                forall|i: int| 0 <= i < lo ==> (#[trigger] self.entries_seq()[i]).0 < t,
                forall|i: int|
                    hi <= i < self.entries_seq().len() ==> t < (#[trigger] self.entries_seq()[
                    i]).0,
            decreases hi - lo,
        {
            let mid = lo + (hi - lo) / 2;
            let key = self.entries[mid].0;
            proof {
                assert(self.id_seq()[mid as int] == self.entries_seq()[mid as int].0);
            }
            if key == t {
                return Some(mid);
            } else if key < t {
                proof {
                    assert forall|i: int| 0 <= i <= mid implies (#[trigger] self.entries_seq()[
                    i]).0 < t by {
                        assert(self.id_seq()[i] <= self.id_seq()[mid as int]);
                    }
                }
                lo = mid + 1;
            } else {
                proof {
                    assert forall|i: int|
                        mid <= i < self.entries_seq().len() implies t < (
                    #[trigger] self.entries_seq()[i]).0 by {
                        assert(self.id_seq()[mid as int] <= self.id_seq()[i]);
                    }
                }
                hi = mid;
            }
        }
        proof {
            assert forall|i: int| 0 <= i < self.id_seq().len() implies #[trigger] self.id_seq()[i]
                != t by {
                assert(self.id_seq()[i] == self.entries_seq()[i].0);
                if i < lo {
                    assert(self.entries_seq()[i].0 < t);
                } else {
                    assert(t < self.entries_seq()[i].0);
                }
            }
        }
        None
    }

    /// Look up the information content of term `t`.
    pub fn get_term_ic(&self, t: TermId) -> (r: Option<TermIC>)
        requires
            self.wf(),
        ensures
            match r {
                Some(ic) => self.contains_term(t) && ic == self.spec_term_ic(t),
                None => !self.contains_term(t),
            },
    {
        match self.find_entry(t) {
            Some(i) => {
                let entry = &self.entries[i];
                proof {
                    assert(self.id_seq()[i as int] == self.entries_seq()[i as int].0);
                    self.lemma_distinct();
                    lemma_assoc_map_index(self.entries_seq(), i as int);
                }
                Some(
                    TermIC {
                        present: IcRatio { num: self.pop_present, den: entry.1.present },
                        excluded: IcRatio { num: self.pop_excluded, den: entry.1.excluded },
                    },
                )
            },
            None => None,
        }
    }

    /// Look up the information content of a present observation of `t`.
    pub fn get_present_term_ic(&self, t: TermId) -> (r: Option<IcRatio>)
        requires
            self.wf(),
        ensures
            match r {
                Some(ic) => self.contains_term(t) && ic == self.spec_term_ic(t).present,
                None => !self.contains_term(t),
            },
    {
        match self.get_term_ic(t) {
            Some(ic) => Some(ic.present),
            None => None,
        }
    }

    /// Look up the information content of an excluded observation of `t`.
    pub fn get_excluded_term_ic(&self, t: TermId) -> (r: Option<IcRatio>)
        requires
            self.wf(),
        ensures
            match r {
                Some(ic) => self.contains_term(t) && ic == self.spec_term_ic(t).excluded,
                None => !self.contains_term(t),
            },
    {
        match self.get_term_ic(t) {
            Some(ic) => Some(ic.excluded),
            None => None,
        }
    }

    /// The counts recorded for term `t`, if any.
    pub fn get_term_count(&self, t: TermId) -> (r: Option<TermCount>)
        requires
            self.wf(),
        ensures
            match r {
                Some(c) => self.contains_term(t) && c == self.count_map()[t],
                None => !self.contains_term(t),
            },
    {
        match self.find_entry(t) {
            Some(i) => {
                proof {
                    assert(self.id_seq()[i as int] == self.entries_seq()[i as int].0);
                    self.lemma_distinct();
                    lemma_assoc_map_index(self.entries_seq(), i as int);
                }
                Some(self.entries[i].1)
            },
            None => None,
        }
    }

    /// The contained term identifiers, in ascending order; one fresh vector
    /// per call, safely restartable.
    pub fn iter_term_ids(&self) -> (r: Vec<TermId>)
        ensures
            r@ == self.id_seq(),
    {
        let mut ids: Vec<TermId> = Vec::new();
        let mut i: usize = 0;
        while i < self.entries.len()
            invariant
                i <= self.entries_seq().len(),
                ids@.len() == i,
                forall|k: int| 0 <= k < i ==> ids@[k] == (#[trigger] self.entries_seq()[k]).0,
            decreases self.entries_seq().len() - i,
        {
            ids.push(self.entries[i].0);
            i = i + 1;
        }
        proof {
            assert(ids@ =~= self.id_seq());
        }
        ids
    }

    /// A contained term is a witness in the entry list.
    pub proof fn lemma_contains_index(self, t: TermId)
        requires
            self.contains_term(t),
        ensures
            exists|i: int|
                0 <= i < self.entries_seq().len() && (#[trigger] self.entries_seq()[i]).0 == t,
    {
        let i = choose|i: int| 0 <= i < self.id_seq().len() && self.id_seq()[i] == t;
        assert(self.entries_seq()[i].0 == t);
    }
}

} // verus!

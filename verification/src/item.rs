//! Annotated items: a cohort member exposes the collection of its
//! annotations.

use vstd::prelude::*;

verus! {

use crate::feature::{Feature, Observable};
use crate::seqs::{lemma_take_full, lemma_take_succ_parts};

/// The subsequence of annotations observed present, in order.
pub open spec fn present_filter<A: Feature>(s: Seq<A>) -> Seq<A>
    decreases s.len(),
{
    if s.len() == 0 {
        Seq::empty()
    } else {
        let rest = present_filter(s.drop_last());
        if s.last().spec_observation_state() is Present {
            rest.push(s.last())
        } else {
            rest
        }
    }
}

/// The subsequence of annotations observed excluded, in order.
pub open spec fn excluded_filter<A: Feature>(s: Seq<A>) -> Seq<A>
    decreases s.len(),
{
    if s.len() == 0 {
        Seq::empty()
    } else {
        let rest = excluded_filter(s.drop_last());
        if s.last().spec_observation_state() is Excluded {
            rest.push(s.last())
        } else {
            rest
        }
    }
}

/// An annotated item, such as a phenotyped study subject: a collection of
/// features, each identified, observable and frequency-aware.
pub trait AnnotatedItem {
    /// The representation of one annotation.
    type Annotation: Feature + Copy;

    /// The annotations, as seen by specifications.
    spec fn spec_annotations(&self) -> Seq<Self::Annotation>;

    /// The annotations of the item.
    fn annotations(&self) -> (r: &Vec<Self::Annotation>)
        ensures
            r@ == self.spec_annotations(),
    ;

    /// The annotations observed present, in order.
    fn present_annotations(&self) -> (r: Vec<Self::Annotation>)
        ensures
            r@ == present_filter(self.spec_annotations()),
    {
        let anns = self.annotations();
        let mut out: Vec<Self::Annotation> = Vec::new();
        let mut i: usize = 0;
        while i < anns.len()
            invariant
                i <= anns@.len(),
                anns@ == self.spec_annotations(),
                out@ == present_filter(self.spec_annotations().take(i as int)),
            decreases anns@.len() - i,
        {
            let a = anns[i];
            if a.is_present() {
                out.push(a);
            }
            proof {
                lemma_take_succ_parts(self.spec_annotations(), i as int);
            }
            i = i + 1;
        }
        proof {
            lemma_take_full(self.spec_annotations());
        }
        out
    }

    /// The annotations observed excluded, in order.
    fn excluded_annotations(&self) -> (r: Vec<Self::Annotation>)
        ensures
            r@ == excluded_filter(self.spec_annotations()),
    {
        let anns = self.annotations();
        let mut out: Vec<Self::Annotation> = Vec::new();
        let mut i: usize = 0;
        while i < anns.len()
            invariant
                i <= anns@.len(),
                anns@ == self.spec_annotations(),
                out@ == excluded_filter(self.spec_annotations().take(i as int)),
            decreases anns@.len() - i,
        {
            let a = anns[i];
            if a.is_excluded() {
                out.push(a);
            }
            proof {
                lemma_take_succ_parts(self.spec_annotations(), i as int);
            }
            i = i + 1;
        }
        proof {
            lemma_take_full(self.spec_annotations());
        }
        out
    }
}

impl<T: Feature + Copy> AnnotatedItem for Vec<T> {
    type Annotation = T;

    open spec fn spec_annotations(&self) -> Seq<T> {
        self@
    }

    fn annotations(&self) -> (r: &Vec<T>) {
        self
    }
}

} // verus!

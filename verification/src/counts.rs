//! The mathematical model of cohort aggregation: how much every annotation
//! contributes to every term's present and excluded counters, summed over
//! members and over the whole cohort.
//!
//! A *present* observation of a term contributes its weight to every ancestor
//! of the term (inclusive) that lies in the module; an *excluded* observation
//! contributes its weight to every descendant of the term (inclusive).
//! Annotations whose term lies outside the module contribute nothing.

use vstd::prelude::*;

verus! {

use crate::feature::{Feature, TermId};
use crate::hierarchy::Hierarchy;
use crate::seqs::{lemma_take_full, lemma_take_succ_parts};

/// View of a cohort as a sequence of members, each a sequence of annotations.
pub open spec fn cohort_view<A>(cohort: &Vec<Vec<A>>) -> Seq<Seq<A>> {
    cohort@.map_values(|m: Vec<A>| m@)
}

/// The weight carried by one annotation: its numerator.
pub open spec fn weight_of<A: Feature>(a: A) -> nat {
    a.spec_numerator() as nat
}

/// What annotation `a` adds to the present counter of term `t`.
pub open spec fn present_contrib<A: Feature>(h: Hierarchy, root: TermId, a: A, t: TermId) -> nat {
    if a.spec_observation_state() is Present && h.in_module(root, a.spec_identifier())
        && h.is_ancestor(t, a.spec_identifier()) && h.in_module(root, t) {
        weight_of(a)
    } else {
        0
    }
}

/// What annotation `a` adds to the excluded counter of term `t`.
pub open spec fn excluded_contrib<A: Feature>(h: Hierarchy, root: TermId, a: A, t: TermId) -> nat {
    if a.spec_observation_state() is Excluded && h.in_module(root, a.spec_identifier())
        && h.is_descendant(t, a.spec_identifier()) {
        weight_of(a)
    } else {
        0
    }
}

/// Annotation `a` reaches term `t` at all: `t` receives an accumulator entry
/// from `a`, even when the weight is zero.
pub open spec fn touches<A: Feature>(h: Hierarchy, root: TermId, a: A, t: TermId) -> bool {
    h.in_module(root, a.spec_identifier()) && if a.spec_observation_state() is Present {
        h.is_ancestor(t, a.spec_identifier()) && h.in_module(root, t)
    } else {
        h.is_descendant(t, a.spec_identifier())
    }
}

/// Present count contributed by one member to term `t`.
pub open spec fn member_present_count<A: Feature>(
    h: Hierarchy,
    root: TermId,
    m: Seq<A>,
    t: TermId,
) -> nat
    decreases m.len(),
{
    if m.len() == 0 {
        0
    } else {
        member_present_count(h, root, m.drop_last(), t) + present_contrib(h, root, m.last(), t)
    }
}

/// Excluded count contributed by one member to term `t`.
pub open spec fn member_excluded_count<A: Feature>(
    h: Hierarchy,
    root: TermId,
    m: Seq<A>,
    t: TermId,
) -> nat
    decreases m.len(),
{
    if m.len() == 0 {
        0
    } else {
        member_excluded_count(h, root, m.drop_last(), t) + excluded_contrib(h, root, m.last(), t)
    }
}

/// Some annotation of the member reaches term `t`.
pub open spec fn member_touches<A: Feature>(
    h: Hierarchy,
    root: TermId,
    m: Seq<A>,
    t: TermId,
) -> bool
    decreases m.len(),
{
    if m.len() == 0 {
        false
    } else {
        member_touches(h, root, m.drop_last(), t) || touches(h, root, m.last(), t)
    }
}

/// Total weight carried by one member's annotations.
pub open spec fn member_weight<A: Feature>(m: Seq<A>) -> nat
    decreases m.len(),
{
    if m.len() == 0 {
        0
    } else {
        member_weight(m.drop_last()) + weight_of(m.last())
    }
}

/// Present count accumulated at term `t` over the whole cohort.
pub open spec fn cohort_present_count<A: Feature>(
    h: Hierarchy,
    root: TermId,
    c: Seq<Seq<A>>,
    t: TermId,
) -> nat
    decreases c.len(),
{
    if c.len() == 0 {
        0
    } else {
        cohort_present_count(h, root, c.drop_last(), t) + member_present_count(
            h,
            root,
            c.last(),
            t,
        )
    }
}

/// Excluded count accumulated at term `t` over the whole cohort.
pub open spec fn cohort_excluded_count<A: Feature>(
    h: Hierarchy,
    root: TermId,
    c: Seq<Seq<A>>,
    t: TermId,
) -> nat
    decreases c.len(),
{
    if c.len() == 0 {
        0
    } else {
        cohort_excluded_count(h, root, c.drop_last(), t) + member_excluded_count(
            h,
            root,
            c.last(),
            t,
        )
    }
}

/// Some annotation of the cohort reaches term `t`.
pub open spec fn cohort_touches<A: Feature>(
    h: Hierarchy,
    root: TermId,
    c: Seq<Seq<A>>,
    t: TermId,
) -> bool
    decreases c.len(),
{
    if c.len() == 0 {
        false
    } else {
        cohort_touches(h, root, c.drop_last(), t) || member_touches(h, root, c.last(), t)
    }
}

/// Total weight carried by all annotations of the cohort.
pub open spec fn cohort_weight<A: Feature>(c: Seq<Seq<A>>) -> nat
    decreases c.len(),
{
    if c.len() == 0 {
        0
    } else {
        cohort_weight(c.drop_last()) + member_weight(c.last())
    }
}

/// Every annotation of the member names a term of the hierarchy.
pub open spec fn member_ids_known<A: Feature>(m: Seq<A>, n: nat) -> bool {
    forall|j: int| 0 <= j < m.len() ==> (#[trigger] m[j].spec_identifier()) < n
}

/// Every annotation of the cohort names a term of the hierarchy.
pub open spec fn cohort_ids_known<A: Feature>(c: Seq<Seq<A>>, n: nat) -> bool {
    forall|i: int| 0 <= i < c.len() ==> member_ids_known(#[trigger] c[i], n)
}

/// The largest excluded count accumulated at any reached term below `k`.
pub open spec fn max_excluded_upto<A: Feature>(
    h: Hierarchy,
    root: TermId,
    c: Seq<Seq<A>>,
    k: int,
) -> nat
    decreases k,
{
    if k <= 0 {
        0
    } else {
        let prev = max_excluded_upto(h, root, c, k - 1);
        let v: nat = if cohort_touches(h, root, c, (k - 1) as TermId) {
            cohort_excluded_count(h, root, c, (k - 1) as TermId)
        } else {
            0
        };
        if v > prev {
            v
        } else {
            prev
        }
    }
}

/// Whatever one annotation reaches lies within the hierarchy.
pub proof fn lemma_touches_bound<A: Feature>(h: Hierarchy, root: TermId, a: A, t: TermId)
    requires
        h.wf(),
        root < h.spec_term_count(),
        touches(h, root, a, t),
    ensures
        t < h.spec_term_count(),
{
    let id = a.spec_identifier();
    h.lemma_descendant_bound(id, root);
    if a.spec_observation_state() is Present {
        h.lemma_descendant_bound(t, root);
    } else {
        h.lemma_descendant_bound(t, id);
    }
}

/// Whatever a member reaches lies within the hierarchy.
pub proof fn lemma_member_touches_bound<A: Feature>(h: Hierarchy, root: TermId, m: Seq<A>, t: TermId)
    requires
        h.wf(),
        root < h.spec_term_count(),
        member_touches(h, root, m, t),
    ensures
        t < h.spec_term_count(),
    decreases m.len(),
{
    if m.len() > 0 {
        if touches(h, root, m.last(), t) {
            lemma_touches_bound(h, root, m.last(), t);
        } else {
            lemma_member_touches_bound(h, root, m.drop_last(), t);
        }
    }
}

/// Whatever the cohort reaches lies within the hierarchy.
pub proof fn lemma_cohort_touches_bound<A: Feature>(
    h: Hierarchy,
    root: TermId,
    c: Seq<Seq<A>>,
    t: TermId,
)
    requires
        h.wf(),
        root < h.spec_term_count(),
        cohort_touches(h, root, c, t),
    ensures
        t < h.spec_term_count(),
    decreases c.len(),
{
    if c.len() > 0 {
        if member_touches(h, root, c.last(), t) {
            lemma_member_touches_bound(h, root, c.last(), t);
        } else {
            lemma_cohort_touches_bound(h, root, c.drop_last(), t);
        }
    }
}

/// Extending a member prefix by one annotation adds that annotation's
/// contributions.
pub proof fn lemma_member_take_succ<A: Feature>(
    h: Hierarchy,
    root: TermId,
    m: Seq<A>,
    j: int,
    t: TermId,
)
    requires
        0 <= j < m.len(),
    ensures
        member_present_count(h, root, m.take(j + 1), t) == member_present_count(
            h,
            root,
            m.take(j),
            t,
        ) + present_contrib(h, root, m[j], t),
        member_excluded_count(h, root, m.take(j + 1), t) == member_excluded_count(
            h,
            root,
            m.take(j),
            t,
        ) + excluded_contrib(h, root, m[j], t),
        member_touches(h, root, m.take(j + 1), t) == (member_touches(h, root, m.take(j), t)
            || touches(h, root, m[j], t)),
        member_weight(m.take(j + 1)) == member_weight(m.take(j)) + weight_of(m[j]),
{
    lemma_take_succ_parts(m, j);
}

/// Extending a cohort prefix by one member adds that member's contributions.
pub proof fn lemma_cohort_take_succ<A: Feature>(
    h: Hierarchy,
    root: TermId,
    c: Seq<Seq<A>>,
    i: int,
    t: TermId,
)
    requires
        0 <= i < c.len(),
    ensures
        cohort_present_count(h, root, c.take(i + 1), t) == cohort_present_count(
            h,
            root,
            c.take(i),
            t,
        ) + member_present_count(h, root, c[i], t),
        cohort_excluded_count(h, root, c.take(i + 1), t) == cohort_excluded_count(
            h,
            root,
            c.take(i),
            t,
        ) + member_excluded_count(h, root, c[i], t),
        cohort_touches(h, root, c.take(i + 1), t) == (cohort_touches(h, root, c.take(i), t)
            || member_touches(h, root, c[i], t)),
        cohort_weight(c.take(i + 1)) == cohort_weight(c.take(i)) + member_weight(c[i]),
{
    lemma_take_succ_parts(c, i);
}

/// A member's counts are bounded by its weight.
pub proof fn lemma_member_counts_le_weight<A: Feature>(
    h: Hierarchy,
    root: TermId,
    m: Seq<A>,
    t: TermId,
)
    ensures
        member_present_count(h, root, m, t) <= member_weight(m),
        member_excluded_count(h, root, m, t) <= member_weight(m),
    decreases m.len(),
{
    if m.len() > 0 {
        lemma_member_counts_le_weight(h, root, m.drop_last(), t);
    }
}

/// The cohort's counts are bounded by its weight.
pub proof fn lemma_cohort_counts_le_weight<A: Feature>(
    h: Hierarchy,
    root: TermId,
    c: Seq<Seq<A>>,
    t: TermId,
)
    ensures
        cohort_present_count(h, root, c, t) <= cohort_weight(c),
        cohort_excluded_count(h, root, c, t) <= cohort_weight(c),
    decreases c.len(),
{
    if c.len() > 0 {
        lemma_cohort_counts_le_weight(h, root, c.drop_last(), t);
        lemma_member_counts_le_weight(h, root, c.last(), t);
    }
}

/// A member prefix weighs no more than the member.
pub proof fn lemma_member_weight_mono<A: Feature>(m: Seq<A>, j: int)
    requires
        0 <= j <= m.len(),
    ensures
        member_weight(m.take(j)) <= member_weight(m),
    decreases m.len(),
{
    if j == m.len() {
        lemma_take_full(m);
    } else {
        assert(m.take(j) =~= m.drop_last().take(j));
        lemma_member_weight_mono(m.drop_last(), j);
    }
}

/// A cohort prefix weighs no more than the cohort.
pub proof fn lemma_cohort_weight_mono<A: Feature>(c: Seq<Seq<A>>, i: int)
    requires
        0 <= i <= c.len(),
    ensures
        cohort_weight(c.take(i)) <= cohort_weight(c),
    decreases c.len(),
{
    if i == c.len() {
        lemma_take_full(c);
    } else {
        assert(c.take(i) =~= c.drop_last().take(i));
        lemma_cohort_weight_mono(c.drop_last(), i);
    }
}

/// A partially accumulated counter never exceeds the cohort's total weight.
pub proof fn lemma_partial_le_total<A: Feature>(
    h: Hierarchy,
    root: TermId,
    c: Seq<Seq<A>>,
    i: int,
    j: int,
    t: TermId,
)
    requires
        0 <= i < c.len(),
        0 <= j <= c[i].len(),
    ensures
        cohort_present_count(h, root, c.take(i), t) + member_present_count(
            h,
            root,
            c[i].take(j),
            t,
        ) <= cohort_weight(c),
        cohort_excluded_count(h, root, c.take(i), t) + member_excluded_count(
            h,
            root,
            c[i].take(j),
            t,
        ) <= cohort_weight(c),
{
    lemma_cohort_counts_le_weight(h, root, c.take(i), t);
    lemma_member_counts_le_weight(h, root, c[i].take(j), t);
    lemma_member_weight_mono(c[i], j);
    lemma_cohort_take_succ(h, root, c, i, t);
    lemma_cohort_weight_mono(c, i + 1);
}

/// A term no annotation reaches accumulates nothing from a member.
pub proof fn lemma_member_untouched_zero<A: Feature>(
    h: Hierarchy,
    root: TermId,
    m: Seq<A>,
    t: TermId,
)
    requires
        !member_touches(h, root, m, t),
    ensures
        member_present_count(h, root, m, t) == 0,
        member_excluded_count(h, root, m, t) == 0,
    decreases m.len(),
{
    if m.len() > 0 {
        lemma_member_untouched_zero(h, root, m.drop_last(), t);
    }
}

/// A term no annotation reaches accumulates nothing from the cohort.
pub proof fn lemma_cohort_untouched_zero<A: Feature>(
    h: Hierarchy,
    root: TermId,
    c: Seq<Seq<A>>,
    t: TermId,
)
    requires
        !cohort_touches(h, root, c, t),
    ensures
        cohort_present_count(h, root, c, t) == 0,
        cohort_excluded_count(h, root, c, t) == 0,
    decreases c.len(),
{
    if c.len() > 0 {
        lemma_cohort_untouched_zero(h, root, c.drop_last(), t);
        lemma_member_untouched_zero(h, root, c.last(), t);
    }
}

/// Whatever an annotation adds to any term's present counter, it also adds
/// to the module root's: every present observation in the module is an
/// observation of the root.
pub proof fn lemma_present_contrib_le_root<A: Feature>(
    h: Hierarchy,
    root: TermId,
    a: A,
    t: TermId,
)
    requires
        h.wf(),
        root < h.spec_term_count(),
    ensures
        present_contrib(h, root, a, t) <= present_contrib(h, root, a, root),
{
    if present_contrib(h, root, a, t) > 0 {
        let id = a.spec_identifier();
        h.lemma_descendant_bound(id, root);
        h.lemma_duality(root, id);
        h.lemma_reflexive(root);
    }
}

/// The root's present count dominates every term's present count.
pub proof fn lemma_member_present_le_root<A: Feature>(
    h: Hierarchy,
    root: TermId,
    m: Seq<A>,
    t: TermId,
)
    requires
        h.wf(),
        root < h.spec_term_count(),
    ensures
        member_present_count(h, root, m, t) <= member_present_count(h, root, m, root),
    decreases m.len(),
{
    if m.len() > 0 {
        lemma_member_present_le_root(h, root, m.drop_last(), t);
        lemma_present_contrib_le_root(h, root, m.last(), t);
    }
}

/// The root's present count dominates every term's present count, over the
/// whole cohort.
pub proof fn lemma_cohort_present_le_root<A: Feature>(
    h: Hierarchy,
    root: TermId,
    c: Seq<Seq<A>>,
    t: TermId,
)
    requires
        h.wf(),
        root < h.spec_term_count(),
    ensures
        cohort_present_count(h, root, c, t) <= cohort_present_count(h, root, c, root),
    decreases c.len(),
{
    if c.len() > 0 {
        lemma_cohort_present_le_root(h, root, c.drop_last(), t);
        lemma_member_present_le_root(h, root, c.last(), t);
    }
}

/// The running maximum dominates the excluded count of every reached term
/// below the cut-off.
pub proof fn lemma_max_excluded_bound<A: Feature>(
    h: Hierarchy,
    root: TermId,
    c: Seq<Seq<A>>,
    k: int,
    t: TermId,
)
    requires
        t < k,
        cohort_touches(h, root, c, t),
    ensures
        cohort_excluded_count(h, root, c, t) <= max_excluded_upto(h, root, c, k),
    decreases k,
{
    if t + 1 < k {
        lemma_max_excluded_bound(h, root, c, k - 1, t);
    }
}

/// The running maximum never exceeds the largest excluded count, so it is
/// zero when nothing is reached.
pub proof fn lemma_max_excluded_untouched<A: Feature>(
    h: Hierarchy,
    root: TermId,
    c: Seq<Seq<A>>,
    k: int,
)
    requires
        forall|t: TermId| t < k ==> !cohort_touches(h, root, c, t),
    ensures
        max_excluded_upto(h, root, c, k) == 0,
    decreases k,
{
    if k > 0 {
        lemma_max_excluded_untouched(h, root, c, k - 1);
    }
}

} // verus!

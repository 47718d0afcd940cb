//! The cohort information-content calculator: aggregates a cohort's
//! observations over the hierarchy and normalizes them into per-term
//! information content.

use vstd::prelude::*;

verus! {

use crate::counts::{
    cohort_excluded_count,
    cohort_ids_known,
    cohort_present_count,
    cohort_touches,
    cohort_view,
    cohort_weight,
    excluded_contrib,
    lemma_cohort_present_le_root,
    lemma_cohort_take_succ,
    lemma_cohort_touches_bound,
    lemma_cohort_untouched_zero,
    lemma_max_excluded_bound,
    lemma_max_excluded_untouched,
    lemma_member_take_succ,
    lemma_partial_le_total,
    max_excluded_upto,
    member_excluded_count,
    member_ids_known,
    member_present_count,
    member_touches,
    present_contrib,
};
use crate::feature::{Feature, ObservationState, TermId};
use crate::hierarchy::{lemma_strictly_increasing_first_occurrence, Hierarchy};
use crate::ic::{IcCalculationError, IcContainer, TermCount};
use crate::seqs::{lemma_assoc_map_index, lemma_take_full, lemma_take_succ_contains};

/// How the calculator treats an annotation whose term is not in the
/// hierarchy. The default is [`UnknownTermPolicy::Strict`].
#[derive(Debug, Clone, Copy, PartialEq, Eq, Structural, Hash)]
pub enum UnknownTermPolicy {
    /// The annotation is a hard error: the whole calculation aborts with
    /// [`IcCalculationError::UnknownAnnotationTerm`].
    Strict,
    /// The annotation is silently skipped.
    Ignore,
}

/// The outcome promised of a successful calculation over cohort view `cv`,
/// module root `root` and hierarchy `h`: the container holds exactly the
/// reached terms, each with its accumulated counts, normalized by the
/// present count of the root and the largest excluded count overall.
pub open spec fn ic_result_of<A: Feature>(
    h: Hierarchy,
    root: TermId,
    cv: Seq<Seq<A>>,
    c: IcContainer,
) -> bool {
    let n = h.spec_term_count();
    &&& c.wf()
    &&& c.spec_pop_present() == cohort_present_count(h, root, cv, root)
    &&& c.spec_pop_excluded() == max_excluded_upto(h, root, cv, n as int)
    &&& forall|t: TermId|
        #![trigger c.contains_term(t)]
        #![trigger cohort_touches(h, root, cv, t)]
        c.contains_term(t) <==> cohort_touches(h, root, cv, t)
    &&& forall|t: TermId| #[trigger] c.contains_term(t) ==> t < n
    &&& forall|t: TermId| #[trigger]
        c.contains_term(t) ==> c.count_map()[t].present == cohort_present_count(h, root, cv, t)
            && c.count_map()[t].excluded == cohort_excluded_count(h, root, cv, t)
}

/// A vector of `n` zeroed counters.
fn zero_counters(n: usize) -> (v: Vec<u64>)
    ensures
        v@.len() == n,
        forall|i: int| 0 <= i < n ==> v@[i] == 0,
{
    let mut v: Vec<u64> = Vec::new();
    while v.len() < n
        invariant
            v@.len() <= n,
            forall|i: int| 0 <= i < v@.len() ==> v@[i] == 0,
        decreases n - v@.len(),
    {
        v.push(0);
    }
    v
}

/// A vector of `n` cleared flags.
fn clear_flags(n: usize) -> (v: Vec<bool>)
    ensures
        v@.len() == n,
        forall|i: int| 0 <= i < n ==> v@[i] == false,
{
    let mut v: Vec<bool> = Vec::new();
    while v.len() < n
        invariant
            v@.len() <= n,
            forall|i: int| 0 <= i < v@.len() ==> v@[i] == false,
        decreases n - v@.len(),
    {
        v.push(false);
    }
    v
}

/// The membership mask of the module rooted at `root`: one flag per term.
#[verifier::loop_isolation(false)]
fn module_mask(hpo: &Hierarchy, root: TermId) -> (mask: Vec<bool>)
    requires
        hpo.wf(),
        root < hpo.spec_term_count(),
    ensures
        mask@.len() == hpo.spec_term_count(),
        forall|t: int| 0 <= t < mask@.len() ==> mask@[t] == hpo.in_module(root, t as TermId),
{
    let n = hpo.term_count();
    let mut mask = clear_flags(n);
    let desc = hpo.descendants_inclusive(root);
    let ghost ds = hpo.desc_seq(root);
    let mut k: usize = 0;
    while k < desc.len()
        invariant
            k <= ds.len(),
            desc@ == ds,
            hpo.wf(),
            root < hpo.spec_term_count(),
            mask@.len() == hpo.spec_term_count(),
            forall|t: int|
                0 <= t < mask@.len() ==> mask@[t] == ds.take(k as int).contains(t as TermId),
        decreases ds.len() - k,
    {
        let d = desc[k];
        proof {
            hpo.lemma_desc_list_facts(root);
            assert(d == hpo.desc_seq(root)[k as int]);
            assert(hpo.desc_seq(root)[k as int] < hpo.spec_term_count());
        }
        mask[d as usize] = true;
        proof {
            assert(hpo.spec_term_count() <= u32::MAX);
            assert forall|t: int| 0 <= t < mask@.len() implies mask@[t] == ds.take(
                k + 1,
            ).contains(t as TermId) by {
                lemma_take_succ_contains(ds, k as int, t as TermId);
                if t == d as int {
                    assert(mask@[t] == true);
                    assert(ds[k as int] == t as TermId);
                } else {
                    assert(t as TermId != d);
                    assert(mask@[t] == ds.take(k as int).contains(t as TermId));
                }
            }
        }
        k = k + 1;
    }
    proof {
        assert(ds.take(ds.len() as int) =~= ds);
    }
    mask
}

/// Apply one present observation: add `w` to every in-module ancestor of
/// `id` (inclusive), marking each as reached.
#[verifier::loop_isolation(false)]
fn apply_present(
    hpo: &Hierarchy,
    root: TermId,
    mask: &Vec<bool>,
    counters: &mut Vec<u64>,
    touched: &mut Vec<bool>,
    id: TermId,
    w: u32,
)
    requires
        hpo.wf(),
        root < hpo.spec_term_count(),
        id < hpo.spec_term_count(),
        mask@.len() == hpo.spec_term_count(),
        forall|t: int| 0 <= t < mask@.len() ==> mask@[t] == hpo.in_module(root, t as TermId),
        old(counters)@.len() == hpo.spec_term_count(),
        old(touched)@.len() == hpo.spec_term_count(),
        forall|t: int|
            0 <= t < old(counters)@.len() && hpo.is_ancestor(t as TermId, id) && hpo.in_module(
                root,
                t as TermId,
            ) ==> (#[trigger] old(counters)@[t]) + w <= u64::MAX,
    ensures
        final(counters)@.len() == old(counters)@.len(),
        final(touched)@.len() == old(touched)@.len(),
        forall|t: int|
            0 <= t < old(counters)@.len() ==> final(counters)@[t] == old(counters)@[t] + (
            if hpo.is_ancestor(t as TermId, id) && hpo.in_module(root, t as TermId) {
                w as int
            } else {
                0
            }),
        forall|t: int|
            0 <= t < old(touched)@.len() ==> final(touched)@[t] == (old(touched)@[t] || (
            hpo.is_ancestor(t as TermId, id) && hpo.in_module(root, t as TermId))),
{
    let list = hpo.ancestors_inclusive(id);
    let ghost ancs = hpo.anc_seq(id);
    let ghost n = hpo.spec_term_count();
    let mut k: usize = 0;
    while k < list.len()
        invariant
            k <= ancs.len(),
            list@ == ancs,
            hpo.wf(),
            root < n,
            id < n,
            n == hpo.spec_term_count(),
            mask@.len() == n,
            forall|t: int| 0 <= t < mask@.len() ==> mask@[t] == hpo.in_module(root, t as TermId),
            counters@.len() == n,
            touched@.len() == n,
            forall|t: int|
                0 <= t < n && hpo.is_ancestor(t as TermId, id) && hpo.in_module(root, t as TermId)
                    ==> (#[trigger] old(counters)@[t]) + w <= u64::MAX,
            forall|t: int|
                0 <= t < n ==> counters@[t] == old(counters)@[t] + (if ancs.take(
                    k as int,
                ).contains(t as TermId) && hpo.in_module(root, t as TermId) {
                    w as int
                } else {
                    0
                }),
            forall|t: int|
                0 <= t < n ==> touched@[t] == (old(touched)@[t] || (ancs.take(k as int).contains(
                    t as TermId,
                ) && hpo.in_module(root, t as TermId))),
        decreases ancs.len() - k,
    {
        let a = list[k];
        proof {
            hpo.lemma_anc_list_facts(id);
            assert(a == hpo.anc_seq(id)[k as int]);
            assert(hpo.anc_seq(id)[k as int] < n);
        }
        if mask[a as usize] {
            proof {
                lemma_strictly_increasing_first_occurrence(hpo.anc_seq(id), k as int);
                assert(hpo.is_ancestor(a, id)) by {
                    assert(hpo.anc_seq(id)[k as int] == a);
                }
                assert(hpo.in_module(root, a));
            }
            let cur = counters[a as usize];
            counters[a as usize] = cur + w as u64;
            touched[a as usize] = true;
        }
        proof {
            assert(hpo.spec_term_count() <= u32::MAX);
            assert forall|t: int|
                0 <= t < n implies counters@[t] == old(counters)@[t] + (if ancs.take(
                k + 1,
            ).contains(t as TermId) && hpo.in_module(root, t as TermId) {
                w as int
            } else {
                0
            }) by {
                lemma_take_succ_contains(ancs, k as int, t as TermId);
                if t == a as int {
                    assert(ancs[k as int] == t as TermId);
                    if !hpo.in_module(root, t as TermId) {
                        assert(!mask@[t]);
                    }
                } else {
                    assert(t as TermId != a);
                }
            }
            assert forall|t: int|
                0 <= t < n implies touched@[t] == (old(touched)@[t] || (ancs.take(k + 1).contains(
                t as TermId,
            ) && hpo.in_module(root, t as TermId))) by {
                lemma_take_succ_contains(ancs, k as int, t as TermId);
                if t == a as int {
                    assert(ancs[k as int] == t as TermId);
                    if !hpo.in_module(root, t as TermId) {
                        assert(!mask@[t]);
                    }
                } else {
                    assert(t as TermId != a);
                }
            }
        }
        k = k + 1;
    }
    proof {
        assert(ancs.take(ancs.len() as int) =~= ancs);
    }
}

/// Apply one excluded observation: add `w` to every descendant of `id`
/// (inclusive), marking each as reached.
#[verifier::loop_isolation(false)]
fn apply_excluded(
    hpo: &Hierarchy,
    counters: &mut Vec<u64>,
    touched: &mut Vec<bool>,
    id: TermId,
    w: u32,
)
    requires
        hpo.wf(),
        id < hpo.spec_term_count(),
        old(counters)@.len() == hpo.spec_term_count(),
        old(touched)@.len() == hpo.spec_term_count(),
        forall|t: int|
            0 <= t < old(counters)@.len() && hpo.is_descendant(t as TermId, id) ==> (
            #[trigger] old(counters)@[t]) + w <= u64::MAX,
    ensures
        final(counters)@.len() == old(counters)@.len(),
        final(touched)@.len() == old(touched)@.len(),
        forall|t: int|
            0 <= t < old(counters)@.len() ==> final(counters)@[t] == old(counters)@[t] + (
            if hpo.is_descendant(t as TermId, id) {
                w as int
            } else {
                0
            }),
        forall|t: int|
            0 <= t < old(touched)@.len() ==> final(touched)@[t] == (old(touched)@[t]
                || hpo.is_descendant(t as TermId, id)),
{
    let list = hpo.descendants_inclusive(id);
    let ghost descs = hpo.desc_seq(id);
    let ghost n = hpo.spec_term_count();
    let mut k: usize = 0;
    while k < list.len()
        invariant
            k <= descs.len(),
            list@ == descs,
            hpo.wf(),
            id < n,
            n == hpo.spec_term_count(),
            counters@.len() == n,
            touched@.len() == n,
            forall|t: int|
                0 <= t < n && hpo.is_descendant(t as TermId, id) ==> (#[trigger] old(
                    counters,
                )@[t]) + w <= u64::MAX,
            forall|t: int|
                0 <= t < n ==> counters@[t] == old(counters)@[t] + (if descs.take(
                    k as int,
                ).contains(t as TermId) {
                    w as int
                } else {
                    0
                }),
            forall|t: int|
                0 <= t < n ==> touched@[t] == (old(touched)@[t] || descs.take(k as int).contains(
                    t as TermId,
                )),
        decreases descs.len() - k,
    {
        let d = list[k];
        proof {
            hpo.lemma_desc_list_facts(id);
            assert(d == hpo.desc_seq(id)[k as int]);
            assert(hpo.desc_seq(id)[k as int] < n);
            lemma_strictly_increasing_first_occurrence(hpo.desc_seq(id), k as int);
            assert(hpo.is_descendant(d, id)) by {
                assert(hpo.desc_seq(id)[k as int] == d);
            }
        }
        let cur = counters[d as usize];
        counters[d as usize] = cur + w as u64;
        touched[d as usize] = true;
        proof {
            assert(hpo.spec_term_count() <= u32::MAX);
            assert forall|t: int|
                0 <= t < n implies counters@[t] == old(counters)@[t] + (if descs.take(
                k + 1,
            ).contains(t as TermId) {
                w as int
            } else {
                0
            }) by {
                lemma_take_succ_contains(descs, k as int, t as TermId);
                if t == d as int {
                    assert(descs[k as int] == t as TermId);
                } else {
                    assert(t as TermId != d);
                }
            }
            assert forall|t: int|
                0 <= t < n implies touched@[t] == (old(touched)@[t] || descs.take(k + 1).contains(
                t as TermId,
            )) by {
                lemma_take_succ_contains(descs, k as int, t as TermId);
                if t == d as int {
                    assert(descs[k as int] == t as TermId);
                } else {
                    assert(t as TermId != d);
                }
            }
        }
        k = k + 1;
    }
    proof {
        assert(descs.take(descs.len() as int) =~= descs);
    }
}

/// The cohort information-content calculator: a strategy object holding its
/// dependencies (the hierarchy and the module root) with a single entry
/// point, [`CohortIcCalculator::compute_ic`].
pub struct CohortIcCalculator<'o> {
    hpo: &'o Hierarchy,
    module_root: TermId,
    unknown_terms: UnknownTermPolicy,
}

impl<'o> CohortIcCalculator<'o> {
    /// The hierarchy the calculator aggregates over.
    pub closed spec fn spec_hpo(self) -> Hierarchy {
        *self.hpo
    }

    /// The term bounding the subgraph considered for the calculation.
    pub closed spec fn spec_module_root(self) -> TermId {
        self.module_root
    }

    /// How annotations with unknown terms are treated.
    pub closed spec fn spec_unknown_terms(self) -> UnknownTermPolicy {
        self.unknown_terms
    }

    /// Build a calculator over `hpo`, bounded by `module_root`, with the
    /// default [`UnknownTermPolicy::Strict`].
    pub fn new(hpo: &'o Hierarchy, module_root: TermId) -> (r: Self)
        ensures
            r.spec_hpo() == *hpo,
            r.spec_module_root() == module_root,
            r.spec_unknown_terms() is Strict,
    {
        CohortIcCalculator { hpo, module_root, unknown_terms: UnknownTermPolicy::Strict }
    }

    /// Build a calculator with an explicit unknown-term policy.
    pub fn with_unknown_term_policy(
        hpo: &'o Hierarchy,
        module_root: TermId,
        unknown_terms: UnknownTermPolicy,
    ) -> (r: Self)
        ensures
            r.spec_hpo() == *hpo,
            r.spec_module_root() == module_root,
            r.spec_unknown_terms() == unknown_terms,
    {
        CohortIcCalculator { hpo, module_root, unknown_terms }
    }

    /// Aggregate the cohort's observations over the hierarchy and normalize
    /// them into per-term information content.
    ///
    /// Fails with [`IcCalculationError::UnknownModuleRoot`] exactly when the
    /// module root is not a term of the hierarchy, and (under the strict
    /// policy) with [`IcCalculationError::UnknownAnnotationTerm`] exactly
    /// when some annotation references an unknown term. When no observation
    /// reaches any term, the result is a valid empty container.
    #[verifier::loop_isolation(false)]
    #[verifier::rlimit(80)]
    pub fn compute_ic<A: Feature>(&self, cohort: &Vec<Vec<A>>) -> (r: Result<
        IcContainer,
        IcCalculationError,
    >)
        requires
            self.spec_hpo().wf(),
            cohort_weight(cohort_view(cohort)) <= u64::MAX,
        ensures
            ({
                let h = self.spec_hpo();
                let root = self.spec_module_root();
                let cv = cohort_view(cohort);
                let n = h.spec_term_count();
                match r {
                    Ok(c) => {
                        &&& root < n
                        &&& (self.spec_unknown_terms() is Strict ==> cohort_ids_known(cv, n))
                        &&& ic_result_of(h, root, cv, c)
                    },
                    Err(e) => match e {
                        IcCalculationError::UnknownModuleRoot => root >= n,
                        IcCalculationError::UnknownAnnotationTerm => {
                            &&& root < n
                            &&& self.spec_unknown_terms() is Strict
                            &&& !cohort_ids_known(cv, n)
                        },
                    },
                }
            }),
    {
        let hpo = self.hpo;
        let root = self.module_root;
        let ghost h = self.spec_hpo();
        let ghost cv = cohort_view(cohort);
        let n = hpo.term_count();
        if root as usize >= n {
            return Err(IcCalculationError::UnknownModuleRoot);
        }
        let mask = module_mask(hpo, root);
        let mut present = zero_counters(n);
        let mut excluded = zero_counters(n);
        let mut touched = clear_flags(n);

        let mut i: usize = 0;
        while i < cohort.len()
            invariant
                i <= cohort.len(),
                present@.len() == n,
                excluded@.len() == n,
                touched@.len() == n,
                forall|t: int|
                    0 <= t < n ==> #[trigger] present@[t] == cohort_present_count(
                        h,
                        root,
                        cv.take(i as int),
                        t as TermId,
                    ),
                forall|t: int|
                    0 <= t < n ==> #[trigger] excluded@[t] == cohort_excluded_count(
                        h,
                        root,
                        cv.take(i as int),
                        t as TermId,
                    ),
                forall|t: int|
                    0 <= t < n ==> #[trigger] touched@[t] == cohort_touches(
                        h,
                        root,
                        cv.take(i as int),
                        t as TermId,
                    ),
                self.spec_unknown_terms() is Strict ==> cohort_ids_known(
                    cv.take(i as int),
                    n as nat,
                ),
            decreases cohort.len() - i,
        {
            let member = &cohort[i];
            let ghost mv = cv[i as int];
            proof {
                assert(member@ == mv);
            }
            let mut j: usize = 0;
            while j < member.len()
                invariant
                    j <= member.len(),
                    i < cohort.len(),
                    present@.len() == n,
                    excluded@.len() == n,
                    touched@.len() == n,
                    forall|t: int|
                        0 <= t < n ==> #[trigger] present@[t] == cohort_present_count(
                            h,
                            root,
                            cv.take(i as int),
                            t as TermId,
                        ) + member_present_count(h, root, mv.take(j as int), t as TermId),
                    forall|t: int|
                        0 <= t < n ==> #[trigger] excluded@[t] == cohort_excluded_count(
                            h,
                            root,
                            cv.take(i as int),
                            t as TermId,
                        ) + member_excluded_count(h, root, mv.take(j as int), t as TermId),
                    forall|t: int|
                        0 <= t < n ==> #[trigger] touched@[t] == (cohort_touches(
                            h,
                            root,
                            cv.take(i as int),
                            t as TermId,
                        ) || member_touches(h, root, mv.take(j as int), t as TermId)),
                    self.spec_unknown_terms() is Strict ==> cohort_ids_known(
                        cv.take(i as int),
                        n as nat,
                    ),
                    self.spec_unknown_terms() is Strict ==> forall|q: int|
                        0 <= q < j ==> (#[trigger] mv[q].spec_identifier()) < n,
                decreases member.len() - j,
            {
                let a = &member[j];
                let id = a.identifier();
                let w = a.numerator();
                proof {
                    assert(mv[j as int] == member@[j as int]);
                }
                if (id as usize) < n {
                    if mask[id as usize] {
                        match a.observation_state() {
                            ObservationState::Present => {
                                proof {
                                    assert forall|t: int|
                                        0 <= t < n && h.is_ancestor(t as TermId, id)
                                            && h.in_module(root, t as TermId) implies (
                                    #[trigger] present@[t]) + w <= u64::MAX by {
                                        lemma_member_take_succ(h, root, mv, j as int, t as TermId);
                                        assert(present_contrib(h, root, mv[j as int], t as TermId)
                                            == w as nat);
                                        lemma_partial_le_total(
                                            h,
                                            root,
                                            cv,
                                            i as int,
                                            j + 1,
                                            t as TermId,
                                        );
                                    }
                                }
                                apply_present(
                                    hpo,
                                    root,
                                    &mask,
                                    &mut present,
                                    &mut touched,
                                    id,
                                    w,
                                );
                                proof {
                                    assert forall|t: int| #![all_triggers] 0 <= t < n implies {
                                        &&& present@[t] == cohort_present_count(
                                            h,
                                            root,
                                            cv.take(i as int),
                                            t as TermId,
                                        ) + member_present_count(
                                            h,
                                            root,
                                            mv.take(j + 1),
                                            t as TermId,
                                        )
                                        &&& excluded@[t] == cohort_excluded_count(
                                            h,
                                            root,
                                            cv.take(i as int),
                                            t as TermId,
                                        ) + member_excluded_count(
                                            h,
                                            root,
                                            mv.take(j + 1),
                                            t as TermId,
                                        )
                                        &&& touched@[t] == (cohort_touches(
                                            h,
                                            root,
                                            cv.take(i as int),
                                            t as TermId,
                                        ) || member_touches(h, root, mv.take(j + 1), t as TermId))
                                    } by {
                                        lemma_member_take_succ(h, root, mv, j as int, t as TermId);
                                    }
                                }
                            },
                            ObservationState::Excluded => {
                                proof {
                                    assert forall|t: int|
                                        0 <= t < n && h.is_descendant(t as TermId, id) implies (
                                    #[trigger] excluded@[t]) + w <= u64::MAX by {
                                        lemma_member_take_succ(h, root, mv, j as int, t as TermId);
                                        assert(excluded_contrib(h, root, mv[j as int], t as TermId)
                                            == w as nat);
                                        lemma_partial_le_total(
                                            h,
                                            root,
                                            cv,
                                            i as int,
                                            j + 1,
                                            t as TermId,
                                        );
                                    }
                                }
                                apply_excluded(hpo, &mut excluded, &mut touched, id, w);
                                proof {
                                    assert forall|t: int| #![all_triggers] 0 <= t < n implies {
                                        &&& present@[t] == cohort_present_count(
                                            h,
                                            root,
                                            cv.take(i as int),
                                            t as TermId,
                                        ) + member_present_count(
                                            h,
                                            root,
                                            mv.take(j + 1),
                                            t as TermId,
                                        )
                                        &&& excluded@[t] == cohort_excluded_count(
                                            h,
                                            root,
                                            cv.take(i as int),
                                            t as TermId,
                                        ) + member_excluded_count(
                                            h,
                                            root,
                                            mv.take(j + 1),
                                            t as TermId,
                                        )
                                        &&& touched@[t] == (cohort_touches(
                                            h,
                                            root,
                                            cv.take(i as int),
                                            t as TermId,
                                        ) || member_touches(h, root, mv.take(j + 1), t as TermId))
                                    } by {
                                        lemma_member_take_succ(h, root, mv, j as int, t as TermId);
                                    }
                                }
                            },
                        }
                    } else {
                        proof {
                            assert(!h.in_module(root, id));
                            assert forall|t: int| #![all_triggers] 0 <= t < n implies {
                                &&& present@[t] == cohort_present_count(
                                    h,
                                    root,
                                    cv.take(i as int),
                                    t as TermId,
                                ) + member_present_count(h, root, mv.take(j + 1), t as TermId)
                                &&& excluded@[t] == cohort_excluded_count(
                                    h,
                                    root,
                                    cv.take(i as int),
                                    t as TermId,
                                ) + member_excluded_count(h, root, mv.take(j + 1), t as TermId)
                                &&& touched@[t] == (cohort_touches(
                                    h,
                                    root,
                                    cv.take(i as int),
                                    t as TermId,
                                ) || member_touches(h, root, mv.take(j + 1), t as TermId))
                            } by {
                                lemma_member_take_succ(h, root, mv, j as int, t as TermId);
                            }
                        }
                    }
                } else {
                    match self.unknown_terms {
                        UnknownTermPolicy::Strict => {
                            proof {
                                assert(mv[j as int].spec_identifier() >= n);
                                assert(!member_ids_known(mv, n as nat));
                                assert(cv[i as int] == mv);
                                assert(!cohort_ids_known(cv, n as nat));
                            }
                            return Err(IcCalculationError::UnknownAnnotationTerm);
                        },
                        UnknownTermPolicy::Ignore => {
                            proof {
                                if h.in_module(root, id) {
                                    h.lemma_descendant_bound(id, root);
                                }
                                assert(!h.in_module(root, id));
                                assert forall|t: int| #![all_triggers] 0 <= t < n implies {
                                    &&& present@[t] == cohort_present_count(
                                        h,
                                        root,
                                        cv.take(i as int),
                                        t as TermId,
                                    ) + member_present_count(h, root, mv.take(j + 1), t as TermId)
                                    &&& excluded@[t] == cohort_excluded_count(
                                        h,
                                        root,
                                        cv.take(i as int),
                                        t as TermId,
                                    ) + member_excluded_count(h, root, mv.take(j + 1), t as TermId)
                                    &&& touched@[t] == (cohort_touches(
                                        h,
                                        root,
                                        cv.take(i as int),
                                        t as TermId,
                                    ) || member_touches(h, root, mv.take(j + 1), t as TermId))
                                } by {
                                    lemma_member_take_succ(h, root, mv, j as int, t as TermId);
                                }
                            }
                        },
                    }
                }
                j = j + 1;
            }
            proof {
                lemma_take_full(mv);
                assert forall|t: int| #![all_triggers] 0 <= t < n implies {
                    &&& present@[t] == cohort_present_count(
                        h,
                        root,
                        cv.take(i + 1),
                        t as TermId,
                    )
                    &&& excluded@[t] == cohort_excluded_count(h, root, cv.take(i + 1), t as TermId)
                    &&& touched@[t] == cohort_touches(h, root, cv.take(i + 1), t as TermId)
                } by {
                    lemma_cohort_take_succ(h, root, cv, i as int, t as TermId);
                }
                if self.spec_unknown_terms() is Strict {
                    assert forall|q: int| 0 <= q < i + 1 implies member_ids_known(
                        #[trigger] cv.take(i + 1)[q],
                        n as nat,
                    ) by {
                        assert(cv.take(i + 1)[q] == cv[q]);
                        if q < i {
                            assert(cv.take(i as int)[q] == cv[q]);
                            assert(member_ids_known(cv.take(i as int)[q], n as nat));
                        } else {
                            assert(cv[q] == mv);
                        }
                    }
                }
            }
            i = i + 1;
        }
        proof {
            lemma_take_full(cv);
        }

        let pop_present = present[root as usize];
        let mut entries: Vec<(TermId, TermCount)> = Vec::new();
        let mut pop_excluded: u64 = 0;
        let mut t: usize = 0;
        while t < n
            invariant
                t <= n,
                pop_excluded == max_excluded_upto(h, root, cv, t as int),
                forall|e1: int, e2: int|
                    0 <= e1 < e2 < entries@.len() ==> (#[trigger] entries@[e1]).0 < (
                    #[trigger] entries@[e2]).0,
                forall|e: int|
                    0 <= e < entries@.len() ==> ((#[trigger] entries@[e]).0 as int) < t,
                forall|e: int|
                    0 <= e < entries@.len() ==> touched@[(#[trigger] entries@[e]).0 as int]
                        && entries@[e].1.present == present@[entries@[e].0 as int]
                        && entries@[e].1.excluded == excluded@[entries@[e].0 as int],
                forall|u: int|
                    0 <= u < t && touched@[u] ==> exists|e: int|
                        0 <= e < entries@.len() && ((#[trigger] entries@[e]).0 as int) == u,
            decreases n - t,
        {
            if touched[t] {
                let ghost entries0 = entries@;
                entries.push(
                    (t as u32, TermCount { present: present[t], excluded: excluded[t] }),
                );
                if excluded[t] > pop_excluded {
                    pop_excluded = excluded[t];
                }
                proof {
                    assert forall|u: int|
                        0 <= u < t + 1 && touched@[u] implies exists|e: int|
                        0 <= e < entries@.len() && ((#[trigger] entries@[e]).0 as int) == u by {
                        if u < t {
                            let e0 = choose|e: int|
                                0 <= e < entries0.len() && ((#[trigger] entries0[e]).0 as int)
                                    == u;
                            assert(entries@[e0] == entries0[e0]);
                            assert(((entries@[e0]).0 as int) == u);
                        } else {
                            assert(((entries@[entries@.len() - 1]).0 as int) == u);
                        }
                    }
                }
            }
            proof {
                assert(max_excluded_upto(h, root, cv, t + 1) == ({
                    let prev = max_excluded_upto(h, root, cv, t as int);
                    let v: nat = if cohort_touches(h, root, cv, t as TermId) {
                        cohort_excluded_count(h, root, cv, t as TermId)
                    } else {
                        0
                    };
                    if v > prev {
                        v
                    } else {
                        prev
                    }
                }));
            }
            t = t + 1;
        }

        let container = IcContainer::from_parts(pop_present, pop_excluded, entries);
        proof {
            let es = container.entries_seq();
            assert(es == entries@);
            assert forall|e1: int, e2: int|
                0 <= e1 < e2 < container.id_seq().len() implies #[trigger] container.id_seq()[e1]
                < #[trigger] container.id_seq()[e2] by {
                assert(container.id_seq()[e1] == es[e1].0);
                assert(container.id_seq()[e2] == es[e2].0);
            }
            assert(crate::hierarchy::strictly_increasing(container.id_seq()));
            // Every entry's counts are the cohort's counts for its term.
            assert forall|e: int| 0 <= e < es.len() implies {
                &&& (#[trigger] es[e]).1.present == cohort_present_count(h, root, cv, es[e].0)
                &&& es[e].1.excluded == cohort_excluded_count(h, root, cv, es[e].0)
                &&& cohort_touches(h, root, cv, es[e].0)
                &&& es[e].0 < n
            } by {
                assert(touched@[es[e].0 as int]);
                assert(present@[es[e].0 as int] == cohort_present_count(h, root, cv, es[e].0));
            }
            // Population bounds.
            assert(pop_present == cohort_present_count(h, root, cv, root));
            assert forall|e: int| 0 <= e < es.len() implies (#[trigger] es[e]).1.present
                <= pop_present by {
                lemma_cohort_present_le_root(h, root, cv, es[e].0);
            }
            assert forall|e: int| 0 <= e < es.len() implies (#[trigger] es[e]).1.excluded
                <= pop_excluded by {
                lemma_max_excluded_bound(h, root, cv, n as int, es[e].0);
            }
            if es.len() == 0 {
                assert forall|u: TermId| u < n implies !cohort_touches(h, root, cv, u) by {
                    assert(touched@[u as int] == cohort_touches(h, root, cv, u));
                    if touched@[u as int] {
                        let e = choose|e: int|
                            0 <= e < entries@.len() && ((#[trigger] entries@[e]).0 as int) == u;
                    }
                }
                assert(!cohort_touches(h, root, cv, root));
                lemma_cohort_untouched_zero(h, root, cv, root);
                lemma_max_excluded_untouched(h, root, cv, n as int);
            }
            assert(container.wf());
            // Membership is exactly reachedness.
            assert forall|u: TermId|
                #![trigger container.contains_term(u)]
                #![trigger cohort_touches(h, root, cv, u)]
                container.contains_term(u) == cohort_touches(h, root, cv, u) by {
                if container.contains_term(u) {
                    container.lemma_contains_index(u);
                    let e = choose|e: int| 0 <= e < es.len() && (#[trigger] es[e]).0 == u;
                    assert(cohort_touches(h, root, cv, es[e].0));
                } else if cohort_touches(h, root, cv, u) {
                    lemma_cohort_touches_bound(h, root, cv, u);
                    assert(touched@[u as int]);
                    let e = choose|e: int|
                        0 <= e < entries@.len() && ((#[trigger] entries@[e]).0 as int) == u as int;
                    assert(container.id_seq()[e] == es[e].0);
                    assert(container.id_seq().contains(u)) by {
                        assert(container.id_seq()[e] == u);
                    }
                }
            }
            // Each contained term maps to its counts.
            assert forall|u: TermId| #[trigger] container.contains_term(u) implies {
                &&& u < n
                &&& container.count_map()[u].present == cohort_present_count(h, root, cv, u)
                &&& container.count_map()[u].excluded == cohort_excluded_count(h, root, cv, u)
            } by {
                container.lemma_contains_index(u);
                let e = choose|e: int| 0 <= e < es.len() && (#[trigger] es[e]).0 == u;
                container.lemma_distinct();
                lemma_assoc_map_index(es, e);
            }
            assert(ic_result_of(h, root, cv, container));
        }
        Ok(container)
    }
}

/// No undefined value appears in a computed container: as long as at least
/// one present and at least one excluded observation were counted, every
/// entry's information content is a well-defined number or positive
/// infinity, never the `0 / 0` form that floating-point arithmetic would
/// render as a NaN.
pub proof fn lemma_no_nan<A: Feature>(
    h: Hierarchy,
    root: TermId,
    cv: Seq<Seq<A>>,
    c: IcContainer,
    t: TermId,
)
    requires
        ic_result_of(h, root, cv, c),
        c.spec_pop_present() > 0,
        c.spec_pop_excluded() > 0,
        c.contains_term(t),
    ensures
        !c.spec_term_ic(t).present.is_nan(),
        !c.spec_term_ic(t).excluded.is_nan(),
{
}

/// The module root's present information content is exactly zero whenever
/// the root is reached and any present observation was counted: its own
/// count is the population count.
pub proof fn lemma_root_present_ic_zero<A: Feature>(
    h: Hierarchy,
    root: TermId,
    cv: Seq<Seq<A>>,
    c: IcContainer,
)
    requires
        ic_result_of(h, root, cv, c),
        c.contains_term(root),
        c.spec_pop_present() > 0,
    ensures
        c.spec_term_ic(root).present.is_zero(),
{
}

/// A term never observed excluded has positive-infinite excluded
/// information content, provided some excluded observation was counted
/// anywhere in the module.
pub proof fn lemma_never_excluded_ic_infinite<A: Feature>(
    h: Hierarchy,
    root: TermId,
    cv: Seq<Seq<A>>,
    c: IcContainer,
    t: TermId,
)
    requires
        ic_result_of(h, root, cv, c),
        c.contains_term(t),
        cohort_excluded_count(h, root, cv, t) == 0,
        c.spec_pop_excluded() > 0,
    ensures
        c.spec_term_ic(t).excluded.is_infinite(),
{
}

} // verus!

//! MICA-based semantic similarity: for every pair of terms appearing in an
//! information-content container, the information content of the pair's most
//! informative common ancestor (MICA), precomputed into an immutable lookup
//! table.

use vstd::prelude::*;

verus! {

use crate::compute::{ic_result_of, CohortIcCalculator};
use crate::counts::{cohort_present_count, cohort_touches, cohort_view, cohort_weight};
use crate::feature::{Feature, Identified, IndividualFeature, Observable, ObservationState, TermId};
use crate::hierarchy::{strictly_increasing, Hierarchy};
use crate::ic::{ic_le, IcCalculationError, IcContainer, IcRatio};
use crate::seqs::{
    assoc_map,
    distinct_keys,
    lemma_assoc_map_contains,
    lemma_assoc_map_index,
    lemma_assoc_map_push,
};

/// Failure of a similarity query.
#[derive(Debug, Clone, Copy, PartialEq, Eq, Structural, Hash)]
pub enum SimilarityError {
    /// Similarity between a present and an excluded feature is not a
    /// supported query: the evidence is asymmetric and has no defined
    /// semantics here.
    UnsupportedComparison,
}

/// Unordered pair of terms, canonicalized so that construction from `(a, b)`
/// and `(b, a)` yields an identical key: the smaller term comes first.
#[derive(Debug, Clone, Copy, PartialEq, Eq, Structural, Hash)]
pub struct TermPair {
    left: TermId,
    right: TermId,
}

impl TermPair {
    /// The smaller term of the pair.
    pub closed spec fn spec_left(self) -> TermId {
        self.left
    }

    /// The larger term of the pair.
    pub closed spec fn spec_right(self) -> TermId {
        self.right
    }

    /// The canonical pair over `a` and `b`.
    pub closed spec fn canonical(a: TermId, b: TermId) -> TermPair {
        if a <= b {
            TermPair { left: a, right: b }
        } else {
            TermPair { left: b, right: a }
        }
    }

    /// Canonicalization forgets the argument order.
    pub proof fn lemma_canonical_symmetric(a: TermId, b: TermId)
        ensures
            TermPair::canonical(a, b) == TermPair::canonical(b, a),
    {
    }

    /// The canonical pair holds the two terms in order.
    pub proof fn lemma_canonical_parts(a: TermId, b: TermId)
        ensures
            TermPair::canonical(a, b).spec_left() == (if a <= b {
                a
            } else {
                b
            }),
            TermPair::canonical(a, b).spec_right() == (if a <= b {
                b
            } else {
                a
            }),
    {
    }

    /// Build the canonical pair over `left` and `right`.
    pub fn new(left: TermId, right: TermId) -> (p: Self)
        ensures
            p == TermPair::canonical(left, right),
    {
        if left <= right {
            TermPair { left, right }
        } else {
            TermPair { left: right, right: left }
        }
    }
}

/// Strict lexicographic order on canonical pairs.
pub closed spec fn pair_lt(p: TermPair, q: TermPair) -> bool {
    p.left < q.left || (p.left == q.left && p.right < q.right)
}

/// The order is strict: no pair is below itself.
pub proof fn lemma_pair_lt_strict(p: TermPair, q: TermPair)
    ensures
        pair_lt(p, q) ==> p != q,
{
}

/// Term `t` is a common ancestor of `l` and `r` that carries an information
/// content in the container.
pub open spec fn is_common_relevant_anc(
    h: Hierarchy,
    c: IcContainer,
    l: TermId,
    r: TermId,
    t: TermId,
) -> bool {
    h.is_ancestor(t, l) && h.is_ancestor(t, r) && c.contains_term(t)
}

/// `d` is the present count of the most informative common ancestor of `l`
/// and `r`: the count of some common relevant ancestor that no other beats,
/// or the population count itself (information content zero) when the two
/// terms share no relevant ancestor. For `l == r` it is the term's own
/// present count.
pub open spec fn is_mica_den(
    h: Hierarchy,
    c: IcContainer,
    l: TermId,
    r: TermId,
    d: u64,
) -> bool {
    if l == r {
        c.contains_term(l) && d == c.count_map()[l].present
    } else {
        ||| ((exists|t: TermId|
            #[trigger] is_common_relevant_anc(h, c, l, r, t) && c.count_map()[t].present == d)
            && (forall|t: TermId|
                #[trigger] is_common_relevant_anc(h, c, l, r, t) ==> ic_le(
                    (IcRatio { num: c.spec_pop_present(), den: c.count_map()[t].present }),
                    (IcRatio { num: c.spec_pop_present(), den: d }),
                )))
        ||| ((forall|t: TermId| !is_common_relevant_anc(h, c, l, r, t)) && d
            == c.spec_pop_present())
    }
}

/// Find the present count of the most informative common ancestor of `left`
/// and `right` among the container's terms.
#[verifier::loop_isolation(false)]
fn find_ic_mica(hpo: &Hierarchy, c: &IcContainer, left: TermId, right: TermId) -> (d: u64)
    requires
        hpo.wf(),
        c.wf(),
        left < hpo.spec_term_count(),
        right < hpo.spec_term_count(),
        left == right ==> c.contains_term(left),
    ensures
        is_mica_den(*hpo, *c, left, right, d),
{
    let ghost h = *hpo;
    if left == right {
        let cnt = c.get_term_count(left).unwrap();
        return cnt.present;
    }
    let anc_l = hpo.ancestors_inclusive(left);
    let anc_r = hpo.ancestors_inclusive(right);
    let ghost ancs = hpo.anc_seq(left);
    proof {
        hpo.lemma_anc_list_facts(left);
        hpo.lemma_anc_list_facts(right);
    }
    let mut best: u64 = 0;
    let mut found: bool = false;
    let mut k: usize = 0;
    while k < anc_l.len()
        invariant
            k <= ancs.len(),
            found == exists|t: TermId|
                #[trigger] is_common_relevant_anc(h, *c, left, right, t) && ancs.take(
                    k as int,
                ).contains(t),
            found ==> exists|t: TermId|
                #[trigger] is_common_relevant_anc(h, *c, left, right, t) && ancs.take(
                    k as int,
                ).contains(t) && c.count_map()[t].present == best,
            forall|t: TermId|
                #[trigger] is_common_relevant_anc(h, *c, left, right, t) && ancs.take(
                    k as int,
                ).contains(t) ==> ic_le(
                    (IcRatio { num: c.spec_pop_present(), den: c.count_map()[t].present }),
                    (IcRatio { num: c.spec_pop_present(), den: best }),
                ),
        decreases ancs.len() - k,
    {
        let t0 = anc_l[k];
        let mut cand: u64 = 0;
        let mut is_candidate: bool = false;
        if crate::hierarchy::contains_sorted(anc_r, t0) {
            match c.get_term_count(t0) {
                Some(cnt) => {
                    cand = cnt.present;
                    is_candidate = true;
                    proof {
                        assert(h.is_ancestor(t0, left)) by {
                            assert(ancs[k as int] == t0);
                        }
                        assert(is_common_relevant_anc(h, *c, left, right, t0));
                    }
                },
                None => {},
            }
        }
        if is_candidate {
            let take_it = if !found {
                true
            } else if best == 0 {
                false
            } else {
                cand == 0 || cand < best
            };
            if take_it {
                best = cand;
            }
            found = true;
        }
        proof {
            assert forall|t: TermId|
                is_common_relevant_anc(h, *c, left, right, t) && ancs.take(k + 1).contains(
                    t,
                ) implies (is_common_relevant_anc(h, *c, left, right, t) && (ancs.take(
                k as int,
            ).contains(t) || t == t0)) by {
                crate::seqs::lemma_take_succ_contains(ancs, k as int, t);
            }
            if is_candidate {
                assert(ancs.take(k + 1).contains(t0)) by {
                    assert(ancs.take(k + 1)[k as int] == t0);
                }
            } else {
                assert(!is_common_relevant_anc(h, *c, left, right, t0));
            }
            assert forall|t: TermId|
                #[trigger] is_common_relevant_anc(h, *c, left, right, t) && ancs.take(
                    k as int,
                ).contains(t) implies ancs.take(k + 1).contains(t) by {
                crate::seqs::lemma_take_succ_contains(ancs, k as int, t);
            }
        }
        k = k + 1;
    }
    proof {
        assert(ancs.take(ancs.len() as int) =~= ancs);
        assert forall|t: TermId|
            #[trigger] is_common_relevant_anc(h, *c, left, right, t) implies ancs.contains(t) by {
        }
    }
    if found {
        best
    } else {
        c.pop_present()
    }
}

/// The most-informative-common-ancestor count does not depend on the order
/// of the two terms.
pub proof fn lemma_mica_den_symmetric(h: Hierarchy, c: IcContainer, l: TermId, r: TermId, d: u64)
    requires
        is_mica_den(h, c, l, r, d),
    ensures
        is_mica_den(h, c, r, l, d),
{
    if l != r {
        if exists|t: TermId|
            #[trigger] is_common_relevant_anc(h, c, l, r, t) && c.count_map()[t].present == d {
            let t0 = choose|t: TermId|
                #[trigger] is_common_relevant_anc(h, c, l, r, t) && c.count_map()[t].present == d;
            assert(is_common_relevant_anc(h, c, r, l, t0));
            assert forall|t: TermId| #[trigger]
                is_common_relevant_anc(h, c, r, l, t) implies ic_le(
                (IcRatio { num: c.spec_pop_present(), den: c.count_map()[t].present }),
                (IcRatio { num: c.spec_pop_present(), den: d }),
            ) by {
                assert(is_common_relevant_anc(h, c, l, r, t));
            }
        } else {
            assert forall|t: TermId| !is_common_relevant_anc(h, c, r, l, t) by {
                assert(!is_common_relevant_anc(h, c, l, r, t));
            }
        }
    }
}

/// The precomputed pairwise similarity table: for every unordered pair of
/// terms appearing in the container, the present count of the pair's most
/// informative common ancestor; pairs whose MICA carries zero information
/// are omitted, and lookups for omitted pairs default to zero information.
pub struct PrecomputedSimilarityMeasure {
    pop_present: u64,
    terms: Vec<(TermId, u64)>,
    pairs: Vec<(TermPair, u64)>,
}

impl PrecomputedSimilarityMeasure {
    /// The population count shared by every value of the table.
    pub closed spec fn spec_pop(self) -> u64 {
        self.pop_present
    }

    /// The per-term present counts, mirroring the container the table was
    /// built from.
    pub closed spec fn terms_seq(self) -> Seq<(TermId, u64)> {
        self.terms@
    }

    /// The stored pair entries, sorted lexicographically.
    pub closed spec fn pairs_seq(self) -> Seq<(TermPair, u64)> {
        self.pairs@
    }

    /// The term identifiers known to the table, ascending.
    pub open spec fn term_ids(self) -> Seq<TermId> {
        self.terms_seq().map_values(|e: (TermId, u64)| e.0)
    }

    /// Per-term present counts as a map.
    pub open spec fn term_map(self) -> Map<TermId, u64> {
        assoc_map(self.terms_seq())
    }

    /// Stored pair counts as a map.
    pub open spec fn pair_map(self) -> Map<TermPair, u64> {
        assoc_map(self.pairs_seq())
    }

    /// The count behind the similarity of `a` and `b`: the term's own
    /// present count on the diagonal, the stored MICA count off it, and the
    /// population count (zero information) where nothing is stored.
    pub open spec fn sim_den(self, a: TermId, b: TermId) -> u64 {
        if a == b {
            if self.term_map().dom().contains(a) {
                self.term_map()[a]
            } else {
                self.spec_pop()
            }
        } else {
            let p = TermPair::canonical(a, b);
            if self.pair_map().dom().contains(p) {
                self.pair_map()[p]
            } else {
                self.spec_pop()
            }
        }
    }

    /// The similarity of `a` and `b` as an exact information-content value.
    pub open spec fn sim_value(self, a: TermId, b: TermId) -> IcRatio {
        IcRatio { num: self.spec_pop(), den: self.sim_den(a, b) }
    }

    /// The table is well-formed: a positive population count, term entries
    /// sorted strictly, pair entries sorted lexicographically, every count
    /// bounded by the population count, and every stored pair count equal to
    /// some term's count.
    pub open spec fn wf(self) -> bool {
        &&& self.spec_pop() >= 1
        &&& strictly_increasing(self.term_ids())
        &&& forall|e1: int, e2: int|
            0 <= e1 < e2 < self.pairs_seq().len() ==> pair_lt(
                (#[trigger] self.pairs_seq()[e1]).0,
                (#[trigger] self.pairs_seq()[e2]).0,
            )
        &&& forall|i: int|
            0 <= i < self.terms_seq().len() ==> (#[trigger] self.terms_seq()[i]).1
                <= self.spec_pop()
        &&& forall|e: int|
            0 <= e < self.pairs_seq().len() ==> (#[trigger] self.pairs_seq()[e]).1
                <= self.spec_pop()
        &&& forall|e: int|
            0 <= e < self.pairs_seq().len() ==> exists|i: int|
                0 <= i < self.terms_seq().len() && (#[trigger] self.terms_seq()[i]).1 == (
                #[trigger] self.pairs_seq()[e]).1
    }

    /// Sorted term entries never repeat a key.
    pub proof fn lemma_terms_distinct(self)
        requires
            strictly_increasing(self.term_ids()),
        ensures
            distinct_keys(self.terms_seq()),
    {
        assert forall|i: int, j: int|
            0 <= i < j < self.terms_seq().len() implies (#[trigger] self.terms_seq()[i]).0 != (
        #[trigger] self.terms_seq()[j]).0 by {
            assert(self.term_ids()[i] < self.term_ids()[j]);
        }
    }

    /// Lexicographically sorted pair entries never repeat a key.
    pub proof fn lemma_pairs_distinct(self)
        requires
            forall|e1: int, e2: int|
                0 <= e1 < e2 < self.pairs_seq().len() ==> pair_lt(
                    (#[trigger] self.pairs_seq()[e1]).0,
                    (#[trigger] self.pairs_seq()[e2]).0,
                ),
        ensures
            distinct_keys(self.pairs_seq()),
    {
        assert forall|i: int, j: int|
            0 <= i < j < self.pairs_seq().len() implies (#[trigger] self.pairs_seq()[i]).0 != (
        #[trigger] self.pairs_seq()[j]).0 by {
            lemma_pair_lt_strict(self.pairs_seq()[i].0, self.pairs_seq()[j].0);
        }
    }
}

/// A pair of container indices already visited by the enumeration, which
/// walks pairs `(u, v)` with `u < v` in lexicographic order and stands at
/// `(x, y)`.
spec fn pair_processed(u: int, v: int, x: int, y: int) -> bool {
    u < x || (u == x && v < y)
}

/// The key `p` is the canonical pair of an already-visited index pair.
spec fn entry_provenance(p: TermPair, ids: Seq<TermId>, x: int, y: int) -> bool {
    exists|u: int, v: int|
        0 <= u < v < ids.len() && #[trigger] pair_processed(u, v, x, y) && p
            == TermPair::canonical(ids[u], ids[v])
}

/// Every stored key is the canonical pair of an already-visited index pair.
spec fn pair_provenance(
    pairs: Seq<(TermPair, u64)>,
    ids: Seq<TermId>,
    x: int,
    y: int,
) -> bool {
    forall|e: int| 0 <= e < pairs.len() ==> entry_provenance((#[trigger] pairs[e]).0, ids, x, y)
}

/// Provenance of one key survives advancing the enumeration frontier.
proof fn lemma_entry_provenance_shift(
    p: TermPair,
    ids: Seq<TermId>,
    x1: int,
    y1: int,
    x2: int,
    y2: int,
)
    requires
        entry_provenance(p, ids, x1, y1),
        forall|u: int, v: int|
            0 <= u < v < ids.len() && pair_processed(u, v, x1, y1) ==> pair_processed(u, v, x2, y2),
    ensures
        entry_provenance(p, ids, x2, y2),
{
    let (u, v) = choose|u: int, v: int|
        0 <= u < v < ids.len() && #[trigger] pair_processed(u, v, x1, y1) && p
            == TermPair::canonical(ids[u], ids[v]);
    assert(pair_processed(u, v, x2, y2) && p == TermPair::canonical(ids[u], ids[v]));
}

/// Provenance survives advancing the enumeration frontier.
proof fn lemma_provenance_shift(
    pairs: Seq<(TermPair, u64)>,
    ids: Seq<TermId>,
    x1: int,
    y1: int,
    x2: int,
    y2: int,
)
    requires
        pair_provenance(pairs, ids, x1, y1),
        forall|u: int, v: int|
            0 <= u < v < ids.len() && pair_processed(u, v, x1, y1) ==> pair_processed(u, v, x2, y2),
    ensures
        pair_provenance(pairs, ids, x2, y2),
{
    assert forall|e: int| 0 <= e < pairs.len() implies entry_provenance(
        (#[trigger] pairs[e]).0,
        ids,
        x2,
        y2,
    ) by {
        lemma_entry_provenance_shift(pairs[e].0, ids, x1, y1, x2, y2);
    }
}

/// The lookup that the finished table will perform for the index pair
/// `(u, v)` already yields the most-informative-common-ancestor count.
spec fn mica_lookup_ok(
    h: Hierarchy,
    c: IcContainer,
    ids: Seq<TermId>,
    pm: Map<TermPair, u64>,
    pop: u64,
    u: int,
    v: int,
) -> bool {
    let p = TermPair::canonical(ids[u], ids[v]);
    &&& pm.dom().contains(p) ==> is_mica_den(h, c, ids[u], ids[v], pm[p])
    &&& !pm.dom().contains(p) ==> is_mica_den(h, c, ids[u], ids[v], pop)
}

/// Every already-visited index pair looks up correctly in the table so far.
spec fn mica_table_ok(
    h: Hierarchy,
    c: IcContainer,
    ids: Seq<TermId>,
    pm: Map<TermPair, u64>,
    pop: u64,
    x: int,
    y: int,
) -> bool {
    forall|u: int, v: int|
        0 <= u < v < ids.len() && pair_processed(u, v, x, y) ==> #[trigger] mica_lookup_ok(
            h,
            c,
            ids,
            pm,
            pop,
            u,
            v,
        )
}

/// Correct lookups survive renaming the enumeration frontier to one that
/// covers no additional pairs.
proof fn lemma_table_ok_shift(
    h: Hierarchy,
    c: IcContainer,
    ids: Seq<TermId>,
    pm: Map<TermPair, u64>,
    pop: u64,
    x1: int,
    y1: int,
    x2: int,
    y2: int,
)
    requires
        mica_table_ok(h, c, ids, pm, pop, x1, y1),
        forall|u: int, v: int|
            0 <= u < v < ids.len() && pair_processed(u, v, x2, y2) ==> pair_processed(u, v, x1, y1),
    ensures
        mica_table_ok(h, c, ids, pm, pop, x2, y2),
{
    assert forall|u: int, v: int|
        0 <= u < v < ids.len() && pair_processed(u, v, x2, y2) implies #[trigger] mica_lookup_ok(
        h,
        c,
        ids,
        pm,
        pop,
        u,
        v,
    ) by {
        assert(pair_processed(u, v, x1, y1));
    }
}

/// What [`precompute`] promises: a well-formed table over the container's
/// population count, mirroring the container's terms, whose lookup yields
/// the most-informative-common-ancestor count for every unordered pair of
/// contained terms.
pub open spec fn measure_of(
    h: Hierarchy,
    c: IcContainer,
    m: PrecomputedSimilarityMeasure,
) -> bool {
    &&& m.wf()
    &&& m.spec_pop() == (if c.entries_seq().len() == 0 {
        1u64
    } else {
        c.spec_pop_present()
    })
    &&& m.terms_seq().len() == c.entries_seq().len()
    &&& forall|i: int|
        0 <= i < m.terms_seq().len() ==> (#[trigger] m.terms_seq()[i]) == (
        c.entries_seq()[i].0,
        c.entries_seq()[i].1.present,
        )
    &&& forall|a: TermId, b: TermId|
        a != b && c.contains_term(a) && c.contains_term(b) ==> is_mica_den(
            h,
            c,
            a,
            b,
            #[trigger] m.sim_den(a, b),
        )
}

/// Build the pairwise similarity table from a computed container: every
/// unordered 2-combination of contained terms is assigned the information
/// content of its most informative common ancestor, and pairs carrying zero
/// information are left out of the table.
#[verifier::loop_isolation(false)]
#[verifier::rlimit(80)]
pub fn precompute(hpo: &Hierarchy, container: &IcContainer) -> (m: PrecomputedSimilarityMeasure)
    requires
        hpo.wf(),
        container.wf(),
        forall|t: TermId| #[trigger]
            container.contains_term(t) ==> t < hpo.spec_term_count(),
        container.entries_seq().len() > 0 ==> container.spec_pop_present() >= 1,
    ensures
        measure_of(*hpo, *container, m),
{
    let ghost h = *hpo;
    let ghost cc = *container;
    let pop = if container.is_empty() {
        1
    } else {
        container.pop_present()
    };
    let ids = container.iter_term_ids();
    let ghost idv = cc.id_seq();

    let mut terms: Vec<(TermId, u64)> = Vec::new();
    let mut i: usize = 0;
    while i < ids.len()
        invariant
            i <= idv.len(),
            terms@.len() == i,
            forall|k: int|
                0 <= k < i ==> (#[trigger] terms@[k]) == (
                cc.entries_seq()[k].0,
                cc.entries_seq()[k].1.present,
                ),
        decreases idv.len() - i,
    {
        let id = ids[i];
        proof {
            assert(cc.contains_term(id)) by {
                assert(cc.id_seq()[i as int] == id);
            }
            cc.lemma_distinct();
            assert(cc.id_seq()[i as int] == cc.entries_seq()[i as int].0);
            lemma_assoc_map_index(cc.entries_seq(), i as int);
        }
        let cnt = container.get_term_count(id).unwrap();
        terms.push((id, cnt.present));
        i = i + 1;
    }

    let mut pairs: Vec<(TermPair, u64)> = Vec::new();
    let mut x: usize = 0;
    while x < ids.len()
        invariant
            x <= idv.len(),
            forall|e1: int, e2: int|
                0 <= e1 < e2 < pairs@.len() ==> pair_lt(
                    (#[trigger] pairs@[e1]).0,
                    (#[trigger] pairs@[e2]).0,
                ),
            pair_provenance(pairs@, idv, x as int, 0),
            mica_table_ok(h, cc, idv, assoc_map(pairs@), pop, x as int, 0),
            forall|e: int| 0 <= e < pairs@.len() ==> (#[trigger] pairs@[e]).1 <= pop,
            forall|e: int|
                0 <= e < pairs@.len() ==> exists|i2: int|
                    0 <= i2 < terms@.len() && (#[trigger] terms@[i2]).1 == (#[trigger] pairs@[
                    e]).1,
        decreases idv.len() - x,
    {
        let l = ids[x];
        proof {
            assert(cc.contains_term(l)) by {
                assert(cc.id_seq()[x as int] == l);
            }
            lemma_provenance_shift(pairs@, idv, x as int, 0, x as int, x + 1);
            lemma_table_ok_shift(
                h,
                cc,
                idv,
                assoc_map(pairs@),
                pop,
                x as int,
                0,
                x as int,
                x + 1,
            );
        }
        let mut y: usize = x + 1;
        while y < ids.len()
            invariant
                x < y <= idv.len(),
                forall|e1: int, e2: int|
                    0 <= e1 < e2 < pairs@.len() ==> pair_lt(
                        (#[trigger] pairs@[e1]).0,
                        (#[trigger] pairs@[e2]).0,
                    ),
                pair_provenance(pairs@, idv, x as int, y as int),
                mica_table_ok(h, cc, idv, assoc_map(pairs@), pop, x as int, y as int),
                forall|e: int| 0 <= e < pairs@.len() ==> (#[trigger] pairs@[e]).1 <= pop,
                forall|e: int|
                    0 <= e < pairs@.len() ==> exists|i2: int|
                        0 <= i2 < terms@.len() && (#[trigger] terms@[i2]).1 == (#[trigger] pairs@[
                        e]).1,
            decreases idv.len() - y,
        {
            let r = ids[y];
            proof {
                assert(cc.contains_term(r)) by {
                    assert(cc.id_seq()[y as int] == r);
                }
                assert(l == idv[x as int] && r == idv[y as int]);
                assert(l < r) by {
                    assert(strictly_increasing(cc.id_seq()));
                }
            }
            let d = find_ic_mica(hpo, container, l, r);
            let ghost pairs0 = pairs@;
            if d != pop {
                let key = TermPair::new(l, r);
                proof {
                    TermPair::lemma_canonical_parts(l, r);
                    // The new key is lexicographically above every stored key.
                    assert forall|e: int| 0 <= e < pairs0.len() implies pair_lt(
                        (#[trigger] pairs0[e]).0,
                        key,
                    ) by {
                        assert(entry_provenance(pairs0[e].0, idv, x as int, y as int));
                        let (u, v) = choose|u: int, v: int|
                            0 <= u < v < idv.len() && #[trigger] pair_processed(
                                u,
                                v,
                                x as int,
                                y as int,
                            ) && pairs0[e].0 == TermPair::canonical(idv[u], idv[v]);
                        TermPair::lemma_canonical_parts(idv[u], idv[v]);
                        assert(idv[u] < idv[v]) by {
                            assert(strictly_increasing(cc.id_seq()));
                        }
                        if u < x {
                            assert(idv[u] < idv[x as int]) by {
                                assert(strictly_increasing(cc.id_seq()));
                            }
                        } else {
                            assert(idv[v] < idv[y as int]) by {
                                assert(strictly_increasing(cc.id_seq()));
                            }
                        }
                    }
                }
                pairs.push((key, d));
                proof {
                    lemma_assoc_map_push(pairs0, (key, d));
                    // The table's value set: the MICA count is some term's count.
                    assert(exists|t: TermId|
                        #[trigger] is_common_relevant_anc(h, cc, l, r, t) && cc.count_map()[
                        t].present == d);
                    let tw = choose|t: TermId|
                        #[trigger] is_common_relevant_anc(h, cc, l, r, t) && cc.count_map()[
                        t].present == d;
                    cc.lemma_contains_index(tw);
                    let ei = choose|e2: int|
                        0 <= e2 < cc.entries_seq().len() && (#[trigger] cc.entries_seq()[e2]).0
                            == tw;
                    cc.lemma_distinct();
                    lemma_assoc_map_index(cc.entries_seq(), ei);
                    assert(terms@[ei].1 == d);
                    assert(d <= pop) by {
                        assert(cc.entries_seq()[ei].1.present <= cc.spec_pop_present());
                    }
                }
            }
            proof {
                let pm = assoc_map(pairs@);
                let newkey = TermPair::canonical(l, r);
                TermPair::lemma_canonical_parts(l, r);
                // Lookups of previously processed pairs are unchanged.
                assert forall|u: int, v: int|
                    0 <= u < v < idv.len() && pair_processed(
                        u,
                        v,
                        x as int,
                        y as int,
                    ) implies #[trigger] mica_lookup_ok(h, cc, idv, pm, pop, u, v) by {
                    let p = TermPair::canonical(idv[u], idv[v]);
                    TermPair::lemma_canonical_parts(idv[u], idv[v]);
                    assert(idv[u] < idv[v] && l < r) by {
                        assert(strictly_increasing(cc.id_seq()));
                    }
                    if p == newkey {
                        assert(idv[u] == l && idv[v] == r);
                        assert(u == x as int) by {
                            assert(strictly_increasing(cc.id_seq()));
                        }
                        assert(v == y as int) by {
                            assert(strictly_increasing(cc.id_seq()));
                        }
                        assert(false);
                    }
                    assert(mica_lookup_ok(h, cc, idv, assoc_map(pairs0), pop, u, v));
                    if d != pop {
                        assert(pm == assoc_map(pairs0).insert(newkey, d));
                        assert(pm.dom().contains(p) == assoc_map(pairs0).dom().contains(p));
                        if pm.dom().contains(p) {
                            assert(pm[p] == assoc_map(pairs0)[p]);
                        }
                    }
                }
                // The pair just visited now looks up correctly.
                assert(mica_lookup_ok(h, cc, idv, pm, pop, x as int, y as int)) by {
                    if d != pop {
                        assert(pm.dom().contains(newkey) && pm[newkey] == d);
                    } else {
                        if pm.dom().contains(newkey) {
                            lemma_assoc_map_contains(pairs@, newkey);
                            let e = choose|e: int|
                                0 <= e < pairs@.len() && (#[trigger] pairs@[e]).0 == newkey;
                            assert(entry_provenance(pairs@[e].0, idv, x as int, y as int));
                            let (u, v) = choose|u: int, v: int|
                                0 <= u < v < idv.len() && #[trigger] pair_processed(
                                    u,
                                    v,
                                    x as int,
                                    y as int,
                                ) && pairs@[e].0 == TermPair::canonical(idv[u], idv[v]);
                            TermPair::lemma_canonical_parts(idv[u], idv[v]);
                            assert(idv[u] < idv[v] && l < r) by {
                                assert(strictly_increasing(cc.id_seq()));
                            }
                            assert(idv[u] == l && idv[v] == r);
                            assert(u == x as int && v == y as int) by {
                                assert(strictly_increasing(cc.id_seq()));
                            }
                            assert(false);
                        }
                    }
                }
                // Both invariants advance to the next frontier.
                assert forall|u: int, v: int|
                    0 <= u < v < idv.len() && pair_processed(
                        u,
                        v,
                        x as int,
                        y + 1,
                    ) implies #[trigger] mica_lookup_ok(h, cc, idv, pm, pop, u, v) by {
                    if !(u == x as int && v == y as int) {
                        assert(pair_processed(u, v, x as int, y as int));
                    }
                }
                assert(mica_table_ok(h, cc, idv, assoc_map(pairs@), pop, x as int, y + 1));
                if d != pop {
                    assert forall|e: int| 0 <= e < pairs@.len() implies entry_provenance(
                        (#[trigger] pairs@[e]).0,
                        idv,
                        x as int,
                        y + 1,
                    ) by {
                        if e < pairs0.len() {
                            assert(pairs@[e] == pairs0[e]);
                            assert(entry_provenance(pairs0[e].0, idv, x as int, y as int));
                            lemma_entry_provenance_shift(
                                pairs0[e].0,
                                idv,
                                x as int,
                                y as int,
                                x as int,
                                y + 1,
                            );
                        } else {
                            assert(pairs@[e].0 == TermPair::canonical(
                                idv[x as int],
                                idv[y as int],
                            ));
                            assert(pair_processed(x as int, y as int, x as int, y + 1));
                            assert(entry_provenance(pairs@[e].0, idv, x as int, y + 1));
                        }
                    }
                    assert(pair_provenance(pairs@, idv, x as int, y + 1));
                } else {
                    lemma_provenance_shift(
                        pairs@,
                        idv,
                        x as int,
                        y as int,
                        x as int,
                        y + 1,
                    );
                }
            }
            y = y + 1;
        }
        proof {
            lemma_provenance_shift(pairs@, idv, x as int, y as int, x + 1, 0);
            lemma_table_ok_shift(
                h,
                cc,
                idv,
                assoc_map(pairs@),
                pop,
                x as int,
                y as int,
                x + 1,
                0,
            );
        }
        x = x + 1;
    }

    let ghost tv = terms@;
    let ghost pv = pairs@;
    let m = PrecomputedSimilarityMeasure { pop_present: pop, terms, pairs };
    proof {
        assert(m.terms_seq() == tv);
        assert(m.pairs_seq() == pv);
        assert forall|e1: int, e2: int|
            0 <= e1 < e2 < m.term_ids().len() implies #[trigger] m.term_ids()[e1]
            < #[trigger] m.term_ids()[e2] by {
            assert(m.term_ids()[e1] == m.terms_seq()[e1].0);
            assert(m.term_ids()[e2] == m.terms_seq()[e2].0);
            assert(cc.id_seq()[e1] == cc.entries_seq()[e1].0);
            assert(cc.id_seq()[e2] == cc.entries_seq()[e2].0);
            assert(strictly_increasing(cc.id_seq()));
        }
        assert forall|i2: int| 0 <= i2 < m.terms_seq().len() implies (
        #[trigger] m.terms_seq()[i2]).1 <= m.spec_pop() by {
            assert(cc.entries_seq()[i2].1.present <= cc.spec_pop_present());
        }
        assert forall|e1: int, e2: int|
            0 <= e1 < e2 < m.pairs_seq().len() implies pair_lt(
            (#[trigger] m.pairs_seq()[e1]).0,
            (#[trigger] m.pairs_seq()[e2]).0,
        ) by {
            assert(m.pairs_seq()[e1] == pv[e1]);
            assert(m.pairs_seq()[e2] == pv[e2]);
        }
        assert forall|e: int| 0 <= e < m.pairs_seq().len() implies (#[trigger] m.pairs_seq()[e]).1
            <= m.spec_pop() by {
            assert(m.pairs_seq()[e] == pv[e]);
        }
        assert forall|e: int| 0 <= e < m.pairs_seq().len() implies exists|i2: int|
            0 <= i2 < m.terms_seq().len() && (#[trigger] m.terms_seq()[i2]).1 == (
        #[trigger] m.pairs_seq()[e]).1 by {
            let i2 = choose|i2: int| 0 <= i2 < tv.len() && (#[trigger] tv[i2]).1 == pv[e].1;
            assert(0 <= i2 < m.terms_seq().len() && m.terms_seq()[i2].1 == m.pairs_seq()[e].1);
        }
        assert(m.wf());
        // Every unordered pair of contained terms looks up its MICA count.
        assert forall|a: TermId, b: TermId|
            a != b && cc.contains_term(a) && cc.contains_term(b) implies is_mica_den(
            h,
            cc,
            a,
            b,
            #[trigger] m.sim_den(a, b),
        ) by {
            cc.lemma_contains_index(a);
            cc.lemma_contains_index(b);
            let ia = choose|e: int|
                0 <= e < cc.entries_seq().len() && (#[trigger] cc.entries_seq()[e]).0 == a;
            let ib = choose|e: int|
                0 <= e < cc.entries_seq().len() && (#[trigger] cc.entries_seq()[e]).0 == b;
            assert(idv[ia] == a && idv[ib] == b) by {
                assert(cc.id_seq()[ia] == cc.entries_seq()[ia].0);
                assert(cc.id_seq()[ib] == cc.entries_seq()[ib].0);
            }
            assert(ia != ib);
            let u = if ia < ib {
                ia
            } else {
                ib
            };
            let v = if ia < ib {
                ib
            } else {
                ia
            };
            assert(pair_processed(u, v, x as int, 0));
            assert(mica_table_ok(h, cc, idv, assoc_map(pv), pop, x as int, 0));
            assert(mica_lookup_ok(h, cc, idv, assoc_map(pv), pop, u, v));
            assert(TermPair::canonical(idv[u], idv[v]) == TermPair::canonical(a, b)) by {
                TermPair::lemma_canonical_symmetric(a, b);
            }
            assert(m.pair_map() == assoc_map(pv));
            if ia < ib {
            } else {
                lemma_mica_den_symmetric(h, cc, idv[u], idv[v], m.sim_den(a, b));
            }
        }
    }
    m
}

impl PrecomputedSimilarityMeasure {
    /// Index-free lookup of the stored present count of term `t`, by binary
    /// search over the sorted term entries.
    fn find_term(&self, t: TermId) -> (r: Option<u64>)
        requires
            self.wf(),
        ensures
            match r {
                Some(d) => self.term_map().dom().contains(t) && d == self.term_map()[t],
                None => !self.term_map().dom().contains(t),
            },
    {
        let mut lo: usize = 0;
        let mut hi: usize = self.terms.len();
        while lo < hi
            invariant
                lo <= hi <= self.terms_seq().len(),
                self.wf(),
                forall|i: int| 0 <= i < lo ==> (#[trigger] self.terms_seq()[i]).0 < t,
                forall|i: int|
                    hi <= i < self.terms_seq().len() ==> t < (#[trigger] self.terms_seq()[i]).0,
            decreases hi - lo,
        {
            let mid = lo + (hi - lo) / 2;
            let key = self.terms[mid].0;
            proof {
                assert(self.term_ids()[mid as int] == self.terms_seq()[mid as int].0);
            }
            if key == t {
                proof {
                    self.lemma_terms_distinct();
                    lemma_assoc_map_index(self.terms_seq(), mid as int);
                }
                return Some(self.terms[mid].1);
            } else if key < t {
                proof {
                    assert forall|i: int| 0 <= i <= mid implies (#[trigger] self.terms_seq()[
                    i]).0 < t by {
                        assert(self.term_ids()[i] <= self.term_ids()[mid as int]);
                    }
                }
                lo = mid + 1;
            } else {
                proof {
                    assert forall|i: int|
                        mid <= i < self.terms_seq().len() implies t < (
                    #[trigger] self.terms_seq()[i]).0 by {
                        assert(self.term_ids()[mid as int] <= self.term_ids()[i]);
                    }
                }
                hi = mid;
            }
        }
        proof {
            lemma_assoc_map_contains(self.terms_seq(), t);
            assert forall|i: int|
                0 <= i < self.terms_seq().len() implies (#[trigger] self.terms_seq()[i]).0
                != t by {
                if i < lo {
                    assert(self.terms_seq()[i].0 < t);
                } else {
                    assert(t < self.terms_seq()[i].0);
                }
            }
        }
        None
    }

    /// Index-free lookup of a stored pair count, by binary search over the
    /// lexicographically sorted pair entries.
    fn find_pair(&self, p: TermPair) -> (r: Option<u64>)
        requires
            self.wf(),
        ensures
            match r {
                Some(d) => self.pair_map().dom().contains(p) && d == self.pair_map()[p],
                None => !self.pair_map().dom().contains(p),
            },
    {
        let mut lo: usize = 0;
        let mut hi: usize = self.pairs.len();
        while lo < hi
            invariant
                lo <= hi <= self.pairs_seq().len(),
                self.wf(),
                forall|i: int| 0 <= i < lo ==> pair_lt((#[trigger] self.pairs_seq()[i]).0, p),
                forall|i: int|
                    hi <= i < self.pairs_seq().len() ==> pair_lt(
                        p,
                        (#[trigger] self.pairs_seq()[i]).0,
                    ),
            decreases hi - lo,
        {
            let mid = lo + (hi - lo) / 2;
            let key = self.pairs[mid].0;
            if key.left == p.left && key.right == p.right {
                proof {
                    self.lemma_pairs_distinct();
                    lemma_assoc_map_index(self.pairs_seq(), mid as int);
                }
                return Some(self.pairs[mid].1);
            } else if key.left < p.left || (key.left == p.left && key.right < p.right) {
                proof {
                    assert forall|i: int| 0 <= i <= mid implies pair_lt(
                        (#[trigger] self.pairs_seq()[i]).0,
                        p,
                    ) by {
                        if i < mid {
                            assert(pair_lt(self.pairs_seq()[i].0, self.pairs_seq()[mid as int].0));
                        }
                    }
                }
                lo = mid + 1;
            } else {
                proof {
                    assert forall|i: int|
                        mid <= i < self.pairs_seq().len() implies pair_lt(
                        p,
                        (#[trigger] self.pairs_seq()[i]).0,
                    ) by {
                        if mid < i {
                            assert(pair_lt(self.pairs_seq()[mid as int].0, self.pairs_seq()[i].0));
                        }
                    }
                }
                hi = mid;
            }
        }
        proof {
            lemma_assoc_map_contains(self.pairs_seq(), p);
            assert forall|i: int|
                0 <= i < self.pairs_seq().len() implies (#[trigger] self.pairs_seq()[i]).0
                != p by {
                if i < lo {
                    lemma_pair_lt_strict(self.pairs_seq()[i].0, p);
                } else {
                    lemma_pair_lt_strict(p, self.pairs_seq()[i].0);
                }
            }
        }
        None
    }
}

/// A similarity measure over annotated features of study subjects.
pub trait SimilarityMeasure {
    /// Whether the measure is in a queryable state.
    spec fn spec_wf(&self) -> bool;

    /// The value promised for a query over two present features.
    spec fn spec_similarity(&self, left: TermId, right: TermId) -> IcRatio;

    /// Compute the similarity of two observed features.
    ///
    /// Succeeds exactly when both features are present; comparing a present
    /// feature against an excluded one fails, never yielding a number.
    fn compute(&self, left: &IndividualFeature, right: &IndividualFeature) -> (r: Result<
        IcRatio,
        SimilarityError,
    >)
        requires
            self.spec_wf(),
            !(left.spec_observation_state() is Excluded && right.spec_observation_state()
                is Excluded),
        ensures
            match r {
                Ok(v) => left.spec_observation_state() is Present
                    && right.spec_observation_state() is Present && v == self.spec_similarity(
                    left.spec_identifier(),
                    right.spec_identifier(),
                ),
                Err(e) => e is UnsupportedComparison && ((left.spec_observation_state()
                    is Present) != (right.spec_observation_state() is Present)),
            },
    ;
}

impl SimilarityMeasure for PrecomputedSimilarityMeasure {
    open spec fn spec_wf(&self) -> bool {
        self.wf()
    }

    open spec fn spec_similarity(&self, left: TermId, right: TermId) -> IcRatio {
        self.sim_value(left, right)
    }

    fn compute(&self, left: &IndividualFeature, right: &IndividualFeature) -> (r: Result<
        IcRatio,
        SimilarityError,
    >) {
        match (left.observation_state(), right.observation_state()) {
            (ObservationState::Present, ObservationState::Present) => {
                let l = left.identifier();
                let t = right.identifier();
                if l == t {
                    match self.find_term(l) {
                        Some(d) => Ok(IcRatio { num: self.pop_present, den: d }),
                        None => Ok(IcRatio { num: self.pop_present, den: self.pop_present }),
                    }
                } else {
                    let key = TermPair::new(l, t);
                    match self.find_pair(key) {
                        Some(d) => Ok(IcRatio { num: self.pop_present, den: d }),
                        None => Ok(IcRatio { num: self.pop_present, den: self.pop_present }),
                    }
                }
            },
            (ObservationState::Present, ObservationState::Excluded) => Err(
                SimilarityError::UnsupportedComparison,
            ),
            (ObservationState::Excluded, ObservationState::Present) => Err(
                SimilarityError::UnsupportedComparison,
            ),
            (ObservationState::Excluded, ObservationState::Excluded) => Err(
                SimilarityError::UnsupportedComparison,
            ),
        }
    }
}

/// The measure `m` was built from some container that is the correct
/// information-content result for the given cohort.
pub open spec fn created_measure_ok<A: Feature>(
    h: Hierarchy,
    root: TermId,
    cv: Seq<Seq<A>>,
    m: PrecomputedSimilarityMeasure,
) -> bool {
    exists|c: IcContainer| ic_result_of(h, root, cv, c) && #[trigger] measure_of(h, c, m)
}

/// Run the information-content calculator over the cohort and precompute the
/// pairwise similarity table from its result. Fails exactly when the
/// calculator fails.
#[verifier::rlimit(60)]
pub fn create_measure<'o, A: Feature>(
    calculator: &CohortIcCalculator<'o>,
    hpo: &Hierarchy,
    cohort: &Vec<Vec<A>>,
) -> (r: Result<PrecomputedSimilarityMeasure, IcCalculationError>)
    requires
        calculator.spec_hpo() == *hpo,
        hpo.wf(),
        cohort_weight(cohort_view(cohort)) <= u64::MAX,
        cohort_present_count(
            *hpo,
            calculator.spec_module_root(),
            cohort_view(cohort),
            calculator.spec_module_root(),
        ) >= 1 || (forall|t: TermId|
            !cohort_touches(*hpo, calculator.spec_module_root(), cohort_view(cohort), t)),
    ensures
        match r {
            Ok(m) => created_measure_ok(
                *hpo,
                calculator.spec_module_root(),
                cohort_view(cohort),
                m,
            ),
            Err(e) => match e {
                IcCalculationError::UnknownModuleRoot => calculator.spec_module_root()
                    >= hpo.spec_term_count(),
                IcCalculationError::UnknownAnnotationTerm => {
                    &&& calculator.spec_module_root() < hpo.spec_term_count()
                    &&& calculator.spec_unknown_terms() is Strict
                    &&& !crate::counts::cohort_ids_known(
                        cohort_view(cohort),
                        hpo.spec_term_count(),
                    )
                },
            },
        },
{
    let ghost h = *hpo;
    let ghost root = calculator.spec_module_root();
    let ghost cv = cohort_view(cohort);
    match calculator.compute_ic(cohort) {
        Ok(container) => {
            proof {
                if container.entries_seq().len() > 0 {
                    assert(container.contains_term(container.id_seq()[0])) by {
                        assert(container.id_seq().contains(container.id_seq()[0]));
                    }
                    let t0 = container.id_seq()[0];
                    assert(cohort_touches(h, root, cv, t0));
                    assert(container.spec_pop_present() >= 1);
                }
            }
            let m = precompute(hpo, &container);
            proof {
                assert(created_measure_ok(
                    *hpo,
                    calculator.spec_module_root(),
                    cohort_view(cohort),
                    m,
                )) by {
                    assert(ic_result_of(
                        *hpo,
                        calculator.spec_module_root(),
                        cohort_view(cohort),
                        container,
                    ) && measure_of(*hpo, container, m));
                }
            }
            Ok(m)
        },
        Err(e) => Err(e),
    }
}

/// The count of the largest present information content among the first `k`
/// terms of the measure; the floor is the population count, standing for
/// zero information content.
pub open spec fn best_term_den(m: PrecomputedSimilarityMeasure, k: int) -> u64
    decreases k,
{
    if k <= 0 {
        m.spec_pop()
    } else {
        let prev = best_term_den(m, k - 1);
        let d = m.terms_seq()[k - 1].1;
        if ic_le(
            (IcRatio { num: m.spec_pop(), den: prev }),
            (IcRatio { num: m.spec_pop(), den: d }),
        ) {
            d
        } else {
            prev
        }
    }
}

/// The largest present information content among the measure's terms.
pub open spec fn max_present_ic(m: PrecomputedSimilarityMeasure) -> IcRatio {
    IcRatio { num: m.spec_pop(), den: best_term_den(m, m.terms_seq().len() as int) }
}

/// The information-content order over counts with a shared positive
/// population is transitive.
proof fn lemma_ic_le_trans(pop: u64, a: u64, b: u64, c: u64)
    requires
        ic_le((IcRatio { num: pop, den: a }), (IcRatio { num: pop, den: b })),
        ic_le((IcRatio { num: pop, den: b }), (IcRatio { num: pop, den: c })),
    ensures
        ic_le((IcRatio { num: pop, den: a }), (IcRatio { num: pop, den: c })),
{
}

/// The running best never falls below the population count's information
/// content and never exceeds the population count.
proof fn lemma_best_term_den_le_pop(m: PrecomputedSimilarityMeasure, k: int)
    requires
        m.wf(),
        k <= m.terms_seq().len(),
    ensures
        best_term_den(m, k) <= m.spec_pop(),
    decreases k,
{
    if k > 0 {
        lemma_best_term_den_le_pop(m, k - 1);
    }
}

/// Every term below the cut-off is at most as informative as the running
/// best.
proof fn lemma_best_term_den_bound(m: PrecomputedSimilarityMeasure, k: int, i: int)
    requires
        m.wf(),
        0 <= i < k <= m.terms_seq().len(),
    ensures
        ic_le(
            (IcRatio { num: m.spec_pop(), den: m.terms_seq()[i].1 }),
            (IcRatio { num: m.spec_pop(), den: best_term_den(m, k) }),
        ),
    decreases k,
{
    if i == k - 1 {
        if !ic_le(
            (IcRatio { num: m.spec_pop(), den: best_term_den(m, k - 1) }),
            (IcRatio { num: m.spec_pop(), den: m.terms_seq()[i].1 }),
        ) {
            lemma_best_term_den_le_pop(m, k - 1);
        }
    } else {
        lemma_best_term_den_bound(m, k - 1, i);
        if ic_le(
            (IcRatio { num: m.spec_pop(), den: best_term_den(m, k - 1) }),
            (IcRatio { num: m.spec_pop(), den: m.terms_seq()[k - 1].1 }),
        ) {
            lemma_ic_le_trans(
                m.spec_pop(),
                m.terms_seq()[i].1,
                best_term_den(m, k - 1),
                m.terms_seq()[k - 1].1,
            );
        }
    }
}

/// MICA-based similarity is symmetric: querying `(a, b)` and `(b, a)` yields
/// the same value.
pub proof fn lemma_similarity_symmetric(m: PrecomputedSimilarityMeasure, a: TermId, b: TermId)
    ensures
        m.sim_value(a, b) == m.sim_value(b, a),
{
    if a != b {
        TermPair::lemma_canonical_symmetric(a, b);
    }
}

/// Self-similarity: the similarity of a contained term with itself is
/// exactly that term's present information content in the container the
/// measure was built from.
pub proof fn lemma_self_similarity(
    h: Hierarchy,
    c: IcContainer,
    m: PrecomputedSimilarityMeasure,
    a: TermId,
)
    requires
        c.wf(),
        measure_of(h, c, m),
        c.contains_term(a),
    ensures
        m.sim_value(a, a) == c.spec_term_ic(a).present,
{
    c.lemma_contains_index(a);
    let i = choose|e: int| 0 <= e < c.entries_seq().len() && (#[trigger] c.entries_seq()[e]).0
        == a;
    assert(m.terms_seq()[i] == (c.entries_seq()[i].0, c.entries_seq()[i].1.present));
    m.lemma_terms_distinct();
    lemma_assoc_map_index(m.terms_seq(), i);
    c.lemma_distinct();
    lemma_assoc_map_index(c.entries_seq(), i);
}

/// Similarity is non-negative and bounded above by the largest present
/// information content among the measure's terms.
pub proof fn lemma_similarity_bounds(m: PrecomputedSimilarityMeasure, a: TermId, b: TermId)
    requires
        m.wf(),
    ensures
        ic_le((IcRatio { num: m.spec_pop(), den: m.spec_pop() }), m.sim_value(a, b)),
        ic_le(m.sim_value(a, b), max_present_ic(m)),
{
    let pop = m.spec_pop();
    let len = m.terms_seq().len() as int;
    lemma_best_term_den_le_pop(m, len);
    if a == b {
        if m.term_map().dom().contains(a) {
            lemma_assoc_map_contains(m.terms_seq(), a);
            let i = choose|i: int|
                0 <= i < m.terms_seq().len() && (#[trigger] m.terms_seq()[i]).0 == a;
            m.lemma_terms_distinct();
            lemma_assoc_map_index(m.terms_seq(), i);
            lemma_best_term_den_bound(m, len, i);
        }
    } else {
        let p = TermPair::canonical(a, b);
        if m.pair_map().dom().contains(p) {
            lemma_assoc_map_contains(m.pairs_seq(), p);
            let e = choose|e: int|
                0 <= e < m.pairs_seq().len() && (#[trigger] m.pairs_seq()[e]).0 == p;
            m.lemma_pairs_distinct();
            lemma_assoc_map_index(m.pairs_seq(), e);
            let i = choose|i: int|
                0 <= i < m.terms_seq().len() && (#[trigger] m.terms_seq()[i]).1 == m.pairs_seq()[
                e].1;
            lemma_best_term_den_bound(m, len, i);
        }
    }
}

} // verus!

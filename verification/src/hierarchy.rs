//! The ontology hierarchy: read-only ancestor and descendant queries over an
//! immutable DAG of terms.
//!
//! A [`Hierarchy`] over `n` terms stores, for every term `t < n`, the list of
//! ancestors of `t` (inclusive of `t` itself) and the list of descendants of
//! `t` (inclusive), both strictly sorted. Construction validates that the two
//! families of lists are bounded, reflexive and dual to each other, so every
//! `Hierarchy` value handed out by [`Hierarchy::new`] is well-formed.

use vstd::prelude::*;

verus! {

use crate::feature::TermId;
use crate::seqs::lemma_take_succ_contains;

/// The elements of `s` grow strictly from left to right.
pub open spec fn strictly_increasing(s: Seq<TermId>) -> bool {
    forall|i: int, j: int| 0 <= i < j < s.len() ==> s[i] < s[j]
}

/// Every per-term list is strictly sorted, stays below `n`, and contains its
/// own term.
pub open spec fn closure_lists_wf(ls: Seq<Seq<TermId>>, n: nat) -> bool {
    &&& ls.len() == n
    &&& forall|t: int| 0 <= t < n ==> strictly_increasing(#[trigger] ls[t])
    &&& forall|t: int, k: int|
        0 <= t < n && 0 <= k < ls[t].len() ==> (#[trigger] ls[t][k]) < n
    &&& forall|t: int| 0 <= t < n ==> (#[trigger] ls[t]).contains(t as TermId)
}

/// One direction of duality: whenever `a` occurs in `fwd[t]`, `t` occurs in
/// `bwd[a]`.
pub open spec fn duality_holds(fwd: Seq<Seq<TermId>>, bwd: Seq<Seq<TermId>>, n: nat) -> bool {
    forall|t: TermId, a: TermId|
        t < n && #[trigger] fwd[t as int].contains(a) ==> bwd[a as int].contains(t)
}

/// The raw data of a hierarchy is acceptable: both list families are
/// well-formed over the same term count, the count fits a `TermId`, and the
/// families are dual (`a` is listed as ancestor of `t` exactly when `t` is
/// listed as descendant of `a`).
pub open spec fn closure_data_wf(anc: Seq<Seq<TermId>>, desc: Seq<Seq<TermId>>) -> bool {
    let n = anc.len();
    &&& desc.len() == n
    &&& n <= u32::MAX
    &&& closure_lists_wf(anc, n)
    &&& closure_lists_wf(desc, n)
    &&& duality_holds(anc, desc, n)
    &&& duality_holds(desc, anc, n)
}

/// An immutable DAG of terms, queryable for the ancestor closure and the
/// descendant closure of any term.
pub struct Hierarchy {
    ancestors: Vec<Vec<TermId>>,
    descendants: Vec<Vec<TermId>>,
}

impl Hierarchy {
    /// Number of terms of the hierarchy; terms are `0 .. spec_term_count()`.
    pub closed spec fn spec_term_count(self) -> nat {
        self.ancestors@.len()
    }

    /// The ancestor lists, one per term.
    pub closed spec fn anc_lists(self) -> Seq<Seq<TermId>> {
        self.ancestors@.map_values(|v: Vec<TermId>| v@)
    }

    /// The descendant lists, one per term.
    pub closed spec fn desc_lists(self) -> Seq<Seq<TermId>> {
        self.descendants@.map_values(|v: Vec<TermId>| v@)
    }

    /// The ancestors of `t`, inclusive of `t`.
    pub open spec fn anc_seq(self, t: TermId) -> Seq<TermId> {
        self.anc_lists()[t as int]
    }

    /// The descendants of `t`, inclusive of `t`.
    pub open spec fn desc_seq(self, t: TermId) -> Seq<TermId> {
        self.desc_lists()[t as int]
    }

    /// `a` is an ancestor of `t` (inclusively: every term is its own
    /// ancestor).
    pub open spec fn is_ancestor(self, a: TermId, t: TermId) -> bool {
        self.anc_seq(t).contains(a)
    }

    /// `d` is a descendant of `t` (inclusively: every term is its own
    /// descendant).
    pub open spec fn is_descendant(self, d: TermId, t: TermId) -> bool {
        self.desc_seq(t).contains(d)
    }

    /// `t` belongs to the module rooted at `root`: it is `root` itself or one
    /// of its descendants.
    pub open spec fn in_module(self, root: TermId, t: TermId) -> bool {
        self.is_descendant(t, root)
    }

    /// The hierarchy data is well-formed; established by [`Hierarchy::new`]
    /// and preserved forever after (the structure is immutable).
    pub open spec fn wf(self) -> bool {
        &&& self.anc_lists().len() == self.spec_term_count()
        &&& self.desc_lists().len() == self.spec_term_count()
        &&& self.spec_term_count() <= u32::MAX
        &&& closure_data_wf(self.anc_lists(), self.desc_lists())
    }

    /// Validate raw closure lists and assemble a hierarchy from them.
    ///
    /// `ancestors[t]` and `descendants[t]` must list the ancestor and
    /// descendant closures of term `t`, inclusive of `t`, strictly sorted.
    /// Returns `None` exactly when the data fails validation.
    pub fn new(ancestors: Vec<Vec<TermId>>, descendants: Vec<Vec<TermId>>) -> (r: Option<
        Hierarchy,
    >)
        ensures
            match r {
                Some(h) => {
                    &&& h.wf()
                    &&& h.anc_lists() == ancestors@.map_values(|v: Vec<TermId>| v@)
                    &&& h.desc_lists() == descendants@.map_values(|v: Vec<TermId>| v@)
                },
                None => !closure_data_wf(
                    ancestors@.map_values(|v: Vec<TermId>| v@),
                    descendants@.map_values(|v: Vec<TermId>| v@),
                ),
            },
    {
        let n = ancestors.len();
        if descendants.len() != n {
            return None;
        }
        if n > u32::MAX as usize {
            return None;
        }
        if !check_closure_lists(&ancestors, n) {
            return None;
        }
        if !check_closure_lists(&descendants, n) {
            return None;
        }
        if !check_duality(&ancestors, &descendants, n) {
            return None;
        }
        if !check_duality(&descendants, &ancestors, n) {
            return None;
        }
        Some(Hierarchy { ancestors, descendants })
    }

    /// Number of terms of the hierarchy.
    pub fn term_count(&self) -> (n: usize)
        ensures
            n == self.spec_term_count(),
    {
        self.ancestors.len()
    }

    /// Whether `t` is a term of this hierarchy.
    pub fn resolve(&self, t: TermId) -> (r: bool)
        ensures
            r == (t < self.spec_term_count()),
    {
        (t as usize) < self.ancestors.len()
    }

    /// The ancestors of `t`, inclusive of `t`, strictly sorted.
    pub fn ancestors_inclusive(&self, t: TermId) -> (r: &Vec<TermId>)
        requires
            self.wf(),
            t < self.spec_term_count(),
        ensures
            r@ == self.anc_seq(t),
    {
        &self.ancestors[t as usize]
    }

    /// The descendants of `t`, inclusive of `t`, strictly sorted.
    pub fn descendants_inclusive(&self, t: TermId) -> (r: &Vec<TermId>)
        requires
            self.wf(),
            t < self.spec_term_count(),
        ensures
            r@ == self.desc_seq(t),
    {
        &self.descendants[t as usize]
    }

    /// Descendants of valid terms are valid terms.
    pub proof fn lemma_descendant_bound(self, d: TermId, t: TermId)
        requires
            self.wf(),
            t < self.spec_term_count(),
            self.is_descendant(d, t),
        ensures
            d < self.spec_term_count(),
    {
        let k = choose|k: int| 0 <= k < self.desc_seq(t).len() && self.desc_seq(t)[k] == d;
        assert(self.desc_lists()[t as int][k] < self.spec_term_count());
    }

    /// The ancestor list of a valid term is strictly sorted and bounded.
    pub proof fn lemma_anc_list_facts(self, t: TermId)
        requires
            self.wf(),
            t < self.spec_term_count(),
        ensures
            strictly_increasing(self.anc_seq(t)),
            forall|k: int|
                0 <= k < self.anc_seq(t).len() ==> (#[trigger] self.anc_seq(t)[k])
                    < self.spec_term_count(),
    {
        let ls = self.anc_lists();
        assert(strictly_increasing(ls[t as int]));
        assert forall|k: int|
            0 <= k < self.anc_seq(t).len() implies (#[trigger] self.anc_seq(t)[k])
            < self.spec_term_count() by {
            assert(ls[t as int][k] < self.spec_term_count());
        }
    }

    /// The descendant list of a valid term is strictly sorted and bounded.
    pub proof fn lemma_desc_list_facts(self, t: TermId)
        requires
            self.wf(),
            t < self.spec_term_count(),
        ensures
            strictly_increasing(self.desc_seq(t)),
            forall|k: int|
                0 <= k < self.desc_seq(t).len() ==> (#[trigger] self.desc_seq(t)[k])
                    < self.spec_term_count(),
    {
        let ls = self.desc_lists();
        assert(strictly_increasing(ls[t as int]));
        assert forall|k: int|
            0 <= k < self.desc_seq(t).len() implies (#[trigger] self.desc_seq(t)[k])
            < self.spec_term_count() by {
            assert(ls[t as int][k] < self.spec_term_count());
        }
    }

    /// Every valid term is its own ancestor and its own descendant.
    pub proof fn lemma_reflexive(self, t: TermId)
        requires
            self.wf(),
            t < self.spec_term_count(),
        ensures
            self.is_ancestor(t, t),
            self.is_descendant(t, t),
    {
    }

    /// Ancestor and descendant listings are dual.
    pub proof fn lemma_duality(self, a: TermId, t: TermId)
        requires
            self.wf(),
            t < self.spec_term_count(),
        ensures
            self.is_ancestor(a, t) ==> self.is_descendant(t, a),
            a < self.spec_term_count() && self.is_descendant(t, a) ==> self.is_ancestor(a, t),
    {
    }
}

/// A strictly sorted list never repeats: the element at `k` does not occur
/// before `k`.
pub proof fn lemma_strictly_increasing_first_occurrence(s: Seq<TermId>, k: int)
    requires
        strictly_increasing(s),
        0 <= k < s.len(),
    ensures
        !s.take(k).contains(s[k]),
{
    assert forall|i: int| 0 <= i < k implies s.take(k)[i] != s[k] by {
        assert(s[i] < s[k]);
    }
}

/// Membership in a strictly sorted vector, by binary search.
pub fn contains_sorted(v: &Vec<TermId>, x: TermId) -> (r: bool)
    requires
        strictly_increasing(v@),
    ensures
        r == v@.contains(x),
{
    let mut lo: usize = 0;
    let mut hi: usize = v.len();
    while lo < hi
        invariant
            lo <= hi <= v@.len(),
            strictly_increasing(v@),
            forall|i: int| 0 <= i < lo ==> v@[i] < x,
            forall|i: int| hi <= i < v@.len() ==> x < v@[i],
        decreases hi - lo,
    {
        let mid = lo + (hi - lo) / 2;
        if v[mid] == x {
            assert(v@.contains(x));
            return true;
        } else if v[mid] < x {
            lo = mid + 1;
        } else {
            hi = mid;
        }
    }
    assert(!v@.contains(x)) by {
        assert forall|i: int| 0 <= i < v@.len() implies v@[i] != x by {
            if i < lo {
                assert(v@[i] < x);
            } else {
                assert(x < v@[i]);
            }
        }
    }
    false
}

/// Check that every list in `lists` is strictly sorted, bounded by `n`, and
/// contains its own index.
fn check_closure_lists(lists: &Vec<Vec<TermId>>, n: usize) -> (ok: bool)
    requires
        lists@.len() == n,
        n <= u32::MAX,
    ensures
        ok == closure_lists_wf(lists@.map_values(|v: Vec<TermId>| v@), n as nat),
{
    let ghost ls = lists@.map_values(|v: Vec<TermId>| v@);
    let mut t: usize = 0;
    while t < n
        invariant
            t <= n,
            n <= u32::MAX,
            lists@.len() == n,
            ls == lists@.map_values(|v: Vec<TermId>| v@),
            forall|u: int| 0 <= u < t ==> strictly_increasing(#[trigger] ls[u]),
            forall|u: int, k: int|
                0 <= u < t && 0 <= k < ls[u].len() ==> (#[trigger] ls[u][k]) < n,
            forall|u: int| 0 <= u < t ==> (#[trigger] ls[u]).contains(u as TermId),
        decreases n - t,
    {
        let list = &lists[t];
        let len = list.len();
        let mut k: usize = 0;
        let mut self_found: bool = false;
        while k < len
            invariant
                k <= len,
                len == ls[t as int].len(),
                t < n <= u32::MAX,
                lists@.len() == n,
                ls == lists@.map_values(|v: Vec<TermId>| v@),
                list@ == ls[t as int],
                forall|i: int, j: int| 0 <= i < j < k ==> ls[t as int][i] < ls[t as int][j],
                forall|i: int| 0 <= i < k ==> (#[trigger] ls[t as int][i]) < n,
                self_found == ls[t as int].take(k as int).contains(t as TermId),
            decreases len - k,
        {
            let x = list[k];
            if x as usize >= n {
                return false;
            }
            if k > 0 && list[k - 1] >= x {
                return false;
            }
            if x as usize == t {
                self_found = true;
            }
            proof {
                lemma_take_succ_contains(ls[t as int], k as int, t as TermId);
            }
            k = k + 1;
        }
        if !self_found {
            assert(ls[t as int].take(len as int) =~= ls[t as int]);
            return false;
        }
        assert(ls[t as int].take(len as int) =~= ls[t as int]);
        t = t + 1;
    }
    true
}

/// Check one direction of duality: whenever `a` occurs in `fwd[t]`, `t`
/// occurs in `bwd[a]`.
fn check_duality(fwd: &Vec<Vec<TermId>>, bwd: &Vec<Vec<TermId>>, n: usize) -> (ok: bool)
    requires
        fwd@.len() == n,
        bwd@.len() == n,
        n <= u32::MAX,
        closure_lists_wf(fwd@.map_values(|v: Vec<TermId>| v@), n as nat),
        closure_lists_wf(bwd@.map_values(|v: Vec<TermId>| v@), n as nat),
    ensures
        ok == duality_holds(
            fwd@.map_values(|v: Vec<TermId>| v@),
            bwd@.map_values(|v: Vec<TermId>| v@),
            n as nat,
        ),
{
    let ghost fs = fwd@.map_values(|v: Vec<TermId>| v@);
    let ghost bs = bwd@.map_values(|v: Vec<TermId>| v@);
    let mut t: usize = 0;
    while t < n
        invariant
            t <= n,
            n <= u32::MAX,
            fwd@.len() == n,
            bwd@.len() == n,
            fs == fwd@.map_values(|v: Vec<TermId>| v@),
            bs == bwd@.map_values(|v: Vec<TermId>| v@),
            closure_lists_wf(fs, n as nat),
            closure_lists_wf(bs, n as nat),
            forall|u: TermId, a: TermId|
                u < t && #[trigger] fs[u as int].contains(a) ==> bs[a as int].contains(u),
        decreases n - t,
    {
        let list = &fwd[t];
        let len = list.len();
        let mut k: usize = 0;
        while k < len
            invariant
                k <= len,
                t < n <= u32::MAX,
                fwd@.len() == n,
                bwd@.len() == n,
                fs == fwd@.map_values(|v: Vec<TermId>| v@),
                bs == bwd@.map_values(|v: Vec<TermId>| v@),
                closure_lists_wf(fs, n as nat),
                closure_lists_wf(bs, n as nat),
                len == fs[t as int].len(),
                list@ == fs[t as int],
                forall|u: TermId, a: TermId|
                    u < t && #[trigger] fs[u as int].contains(a) ==> bs[a as int].contains(u),
                forall|i: int|
                    0 <= i < k ==> bs[(#[trigger] fs[t as int][i]) as int].contains(t as TermId),
            decreases len - k,
        {
            let a = list[k];
            assert(a < n);
            proof {
                assert(bs[a as int] == bwd@[a as int]@);
                assert(strictly_increasing(bs[a as int]));
            }
            if !contains_sorted(&bwd[a as usize], t as TermId) {
                assert(fs[t as int].contains(a));
                return false;
            }
            k = k + 1;
        }
        assert forall|a: TermId| #[trigger]
            fs[t as int].contains(a) implies bs[a as int].contains(t as TermId) by {
            let i = choose|i: int| 0 <= i < fs[t as int].len() && fs[t as int][i] == a;
            assert(bs[(fs[t as int][i]) as int].contains(t as TermId));
        }
        t = t + 1;
    }
    true
}

} // verus!

//! The edge store: accumulates (source, target) pairs, either keeping each
//! distinct pair once or keeping every insertion, and hands them out in
//! canonical order.

use vstd::multiset::Multiset;
use vstd::prelude::*;

use crate::order::{
    compare_pair, lemma_pair_lt_asymmetric, lemma_pair_lt_irreflexive, lemma_pair_lt_total,
    lemma_pair_lt_transitive, pair_lt,
};
use crate::tgf::edge_view;

verus! {

/// Pairs in ascending `(source, target)` order, equal pairs side by side.
pub open spec fn pairs_sorted(s: Seq<(Seq<char>, Seq<char>)>) -> bool {
    forall|i: int, j: int| 0 <= i < j < s.len() ==> !pair_lt(#[trigger] s[j], #[trigger] s[i])
}

/// Pairs in strictly ascending `(source, target)` order.
pub open spec fn pairs_strictly_sorted(s: Seq<(Seq<char>, Seq<char>)>) -> bool {
    forall|i: int, j: int| 0 <= i < j < s.len() ==> pair_lt(#[trigger] s[i], #[trigger] s[j])
}

/// The contents of a store after inserting `p`: a deduplicating store keeps
/// a pair it already holds unchanged.
pub open spec fn added(
    m: Multiset<(Seq<char>, Seq<char>)>,
    unique: bool,
    p: (Seq<char>, Seq<char>),
) -> Multiset<(Seq<char>, Seq<char>)> {
    if unique && m.contains(p) {
        m
    } else {
        m.insert(p)
    }
}

/// Relies on `<[T]>::sort` for `T = (String, String)`: the elements are
/// permuted into ascending order, tuples compared field by field and strings
/// by their bytes, which is the order of their code points.
#[verifier::external_body]
fn sort_pairs(v: &mut Vec<(String, String)>)
    ensures
        edge_view(final(v)@).to_multiset() == edge_view(old(v)@).to_multiset(),
        pairs_sorted(edge_view(final(v)@)),
{
    v.sort();
}

#[derive(Debug)]
pub enum PairStore {
    /// Every insertion is kept, in the order it came.
    Multiple(Vec<(String, String)>),
    /// Each distinct pair once, held in strictly ascending order.
    Unique(Vec<(String, String)>),
}

impl View for PairStore {
    type V = Multiset<(Seq<char>, Seq<char>)>;

    open spec fn view(&self) -> Multiset<(Seq<char>, Seq<char>)> {
        match self {
            PairStore::Multiple(v) => edge_view(v@).to_multiset(),
            PairStore::Unique(v) => edge_view(v@).to_multiset(),
        }
    }
}

impl PairStore {
    /// Whether the store keeps each distinct pair once.
    pub open spec fn is_unique(&self) -> bool {
        self is Unique
    }

    pub open spec fn wf(&self) -> bool {
        match self {
            PairStore::Multiple(_) => true,
            PairStore::Unique(v) => pairs_strictly_sorted(edge_view(v@)),
        }
    }

    /// An empty store that keeps each distinct pair once.
    pub fn new() -> (r: Self)
        ensures
            r.wf(),
            r.is_unique(),
            r@ == Multiset::<(Seq<char>, Seq<char>)>::empty(),
    {
        let r = PairStore::Unique(Vec::new());
        proof {
            broadcast use vstd::seq_lib::group_to_multiset_ensures;

            assert(edge_view(Seq::<(String, String)>::empty()) =~= Seq::empty());
            vstd::multiset::lemma_multiset_empty_len(r@);
        }
        r
    }

    /// An empty store that keeps every insertion.
    pub fn new_multiple() -> (r: Self)
        ensures
            r.wf(),
            !r.is_unique(),
            r@ == Multiset::<(Seq<char>, Seq<char>)>::empty(),
    {
        let r = PairStore::Multiple(Vec::new());
        proof {
            broadcast use vstd::seq_lib::group_to_multiset_ensures;

            assert(edge_view(Seq::<(String, String)>::empty()) =~= Seq::empty());
            vstd::multiset::lemma_multiset_empty_len(r@);
        }
        r
    }

    /// Records the pair `(k, v)`.
    pub fn add_pair(&mut self, k: String, v: String)
        requires
            old(self).wf(),
        ensures
            final(self).wf(),
            final(self).is_unique() == old(self).is_unique(),
            final(self)@ == added(old(self)@, old(self).is_unique(), (k@, v@)),
    {
        broadcast use vstd::seq_lib::group_to_multiset_ensures;

        match self {
            PairStore::Multiple(vec) => {
                let ghost before = vec@;
                vec.push((k, v));
                assert(edge_view(vec@) =~= edge_view(before).push((k@, v@)));
            },
            PairStore::Unique(vec) => {
                let ghost before = vec@;
                let ghost ev = edge_view(vec@);
                let ghost p = (k@, v@);
                let lo = search_pair(vec, &k, &v);
                if lo < vec.len() && matches!(compare_pair(&vec[lo], &k, &v), core::cmp::Ordering::Equal) {
                    assert(ev[lo as int] == p);
                    assert(ev.contains(p));
                } else {
                    assert forall|i: int| lo <= i < ev.len() implies pair_lt(p, #[trigger] ev[i]) by {
                        lemma_pair_lt_total(ev[lo as int], p);
                        if i > lo {
                            lemma_pair_lt_transitive(p, ev[lo as int], ev[i]);
                        }
                    }
                    assert(!ev.contains(p)) by {
                        if ev.contains(p) {
                            let m = choose|m: int| 0 <= m < ev.len() && ev[m] == p;
                            lemma_pair_lt_irreflexive(p);
                        }
                    }
                    vec.insert(lo, (k, v));
                    let ghost ev2 = edge_view(vec@);
                    assert(ev2 =~= ev.insert(lo as int, p));
                    assert forall|i: int, j: int| 0 <= i < j < ev2.len() implies pair_lt(
                        #[trigger] ev2[i],
                        #[trigger] ev2[j],
                    ) by {
                        if j < lo {
                        } else if j == lo {
                        } else if i < lo {
                            lemma_pair_lt_transitive(ev2[i], p, ev2[j]);
                        } else if i == lo {
                        } else {
                            assert(ev2[i] == ev[i - 1] && ev2[j] == ev[j - 1]);
                        }
                    }
                }
            },
        }
    }

    /// Consumes the store and returns its pairs in ascending `(source,
    /// target)` order.
    pub fn sorted_pairs(self) -> (r: Vec<(String, String)>)
        requires
            self.wf(),
        ensures
            edge_view(r@).to_multiset() == self@,
            pairs_sorted(edge_view(r@)),
    {
        match self {
            PairStore::Multiple(vec) => {
                let mut output = vec;
                sort_pairs(&mut output);
                output
            },
            PairStore::Unique(vec) => {
                let ghost ev = edge_view(vec@);
                assert forall|i: int, j: int| 0 <= i < j < ev.len() implies !pair_lt(
                    #[trigger] ev[j],
                    #[trigger] ev[i],
                ) by {
                    lemma_pair_lt_asymmetric(ev[i], ev[j]);
                }
                vec
            },
        }
    }
}

/// Where the pair `(k, v)` would stand in the strictly sorted `t`.
fn search_pair(t: &Vec<(String, String)>, k: &String, v: &String) -> (lo: usize)
    requires
        pairs_strictly_sorted(edge_view(t@)),
    ensures
        lo <= t@.len(),
        forall|i: int| 0 <= i < lo ==> pair_lt(#[trigger] edge_view(t@)[i], (k@, v@)),
        forall|i: int| lo <= i < t@.len() ==> !pair_lt(#[trigger] edge_view(t@)[i], (k@, v@)),
{
    let ghost ev = edge_view(t@);
    let ghost p = (k@, v@);
    let mut lo: usize = 0;
    let mut hi: usize = t.len();
    while lo < hi
        invariant
            0 <= lo <= hi <= t@.len(),
            ev == edge_view(t@),
            p == (k@, v@),
            pairs_strictly_sorted(ev),
            forall|i: int| 0 <= i < lo ==> pair_lt(#[trigger] ev[i], p),
            forall|i: int| hi <= i < t@.len() ==> !pair_lt(#[trigger] ev[i], p),
        decreases hi - lo,
    {
        let mid = lo + (hi - lo) / 2;
        assert(ev[mid as int] == (t@[mid as int].0@, t@[mid as int].1@));
        match compare_pair(&t[mid], k, v) {
            core::cmp::Ordering::Less => {
                assert forall|i: int| 0 <= i < mid + 1 implies pair_lt(#[trigger] ev[i], p) by {
                    if i < mid {
                        lemma_pair_lt_transitive(ev[i], ev[mid as int], p);
                    }
                }
                lo = mid + 1;
            },
            _ => {
                assert forall|i: int| mid <= i < t@.len() implies !pair_lt(#[trigger] ev[i], p) by {
                    if i > mid && pair_lt(ev[i], p) {
                        lemma_pair_lt_transitive(ev[mid as int], ev[i], p);
                    }
                }
                hi = mid;
            },
        }
    }
    lo
}

/// Inserting one pair twice and then finalizing: a deduplicating store
/// hands the pair out exactly once, and a store that keeps every insertion
/// hands it out twice more often than it held it before.
pub proof fn lemma_dedup_policy(
    store: PairStore,
    p: (Seq<char>, Seq<char>),
    out: Seq<(String, String)>,
)
    requires
        store.wf(),
        edge_view(out).to_multiset() == added(
            added(store@, store.is_unique(), p),
            store.is_unique(),
            p,
        ),
    ensures
        store.is_unique() ==> edge_view(out).to_multiset().count(p) == 1,
        !store.is_unique() ==> edge_view(out).to_multiset().count(p) == store@.count(p) + 2,
{
    broadcast use vstd::seq_lib::group_to_multiset_ensures;

    if store.is_unique() {
        let v = match store {
            PairStore::Unique(v) => v,
            PairStore::Multiple(v) => v,
        };
        let ev = edge_view(v@);
        assert(ev.no_duplicates()) by {
            assert forall|i: int, j: int| 0 <= i < ev.len() && 0 <= j < ev.len() && i != j implies ev[i]
                != ev[j] by {
                lemma_pair_lt_irreflexive(ev[i]);
            }
        }
        ev.lemma_multiset_has_no_duplicates();
    }
}

} // verus!

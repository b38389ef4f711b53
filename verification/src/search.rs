use crate::error::Error;
use crate::metrics::{
    Metric, law_score_order, lemma_total_order_key_injective, score_better, valid_vector, validate_vector,
    vector_error,
};
use crate::storage::{VectorId, VectorStorage, id_from_raw, lemma_vector_id_view_injective, raw_ids};
use crate::store::StoreView;
use std::cmp::Ordering;
use vstd::prelude::*;

verus! {

broadcast use crate::storage::group_vector_id;

/// One result from a top-k vector search.
#[derive(Debug, Clone, Copy, PartialEq, Eq, Structural)]
pub struct SearchHit {
    /// Id of the matching vector.
    pub id: VectorId,
    /// Metric score of this match, as an IEEE-754 single-precision pattern.
    ///
    /// Higher is better for cosine and dot product. Lower is better for squared
    /// L2 distance.
    pub score_bits: u32,
}

/// Hit `a` ranks strictly before hit `b`: it has the better score, or the same
/// score and the smaller id.
pub open spec fn hit_before(metric: Metric, a: SearchHit, b: SearchHit) -> bool {
    score_better(metric, a.score_bits, b.score_bits) || (a.score_bits == b.score_bits && a.id@
        < b.id@)
}

/// The scored rows that a search ranks: row `i` has id `ids[i]` and score `scores[i]`.
pub open spec fn candidates(ids: Seq<u64>, scores: Seq<u32>) -> Seq<SearchHit> {
    Seq::new(ids.len(), |i: int| SearchHit { id: id_from_raw(ids[i]), score_bits: scores[i] })
}

/// The smaller of `k` and `n`.
pub open spec fn min_nat(k: nat, n: nat) -> nat {
    if k < n {
        k
    } else {
        n
    }
}

/// Hits in strictly increasing rank.
pub open spec fn ranked(metric: Metric, hits: Seq<SearchHit>) -> bool {
    forall|a: int, b: int|
        0 <= a < b < hits.len() ==> hit_before(metric, #[trigger] hits[a], #[trigger] hits[b])
}

/// `hits` are the `k` best of `cands` (all of them when there are fewer), best
/// first: as many as that, in rank order, each a candidate, and every candidate
/// left out ranks after all of them.
pub open spec fn is_top_k(metric: Metric, cands: Seq<SearchHit>, k: nat, hits: Seq<SearchHit>) -> bool {
    &&& hits.len() == min_nat(k, cands.len())
    &&& ranked(metric, hits)
    &&& forall|t: int| 0 <= t < hits.len() ==> cands.contains(#[trigger] hits[t])
    &&& forall|j: int|
        0 <= j < cands.len() ==> hits.contains(#[trigger] cands[j]) || forall|t: int|
            0 <= t < hits.len() ==> hit_before(metric, #[trigger] hits[t], cands[j])
}

/// Ranking is transitive.
pub proof fn lemma_hit_before_transitive(metric: Metric, a: SearchHit, b: SearchHit, c: SearchHit)
    requires
        hit_before(metric, a, b),
        hit_before(metric, b, c),
    ensures
        hit_before(metric, a, c),
{
}

/// Ranking is irreflexive and asymmetric.
pub proof fn lemma_hit_before_asymmetric(metric: Metric, a: SearchHit, b: SearchHit)
    ensures
        !hit_before(metric, a, a),
        hit_before(metric, a, b) ==> !hit_before(metric, b, a),
{
}

/// Of two different hits, one ranks before the other.
pub proof fn lemma_hit_before_total(metric: Metric, a: SearchHit, b: SearchHit)
    requires
        a != b,
    ensures
        hit_before(metric, a, b) || hit_before(metric, b, a),
{
    lemma_total_order_key_injective(a.score_bits, b.score_bits);
    lemma_vector_id_view_injective(a.id, b.id);
}

/// How two hits rank: the strictly better score comes first, and between equal
/// scores the smaller id comes first.
pub proof fn law_hit_order(metric: Metric, a: SearchHit, b: SearchHit)
    ensures
        a.score_bits == b.score_bits ==> (hit_before(metric, a, b) <==> a.id@ < b.id@),
        a.score_bits != b.score_bits ==> (hit_before(metric, a, b) <==> score_better(
            metric,
            a.score_bits,
            b.score_bits,
        )),
{
    law_score_order(metric, a.score_bits, b.score_bits);
}

/// The hits a search ranks, one per stored row in row order: row `i` carries
/// id `ids[i]` and score `scores[i]`.
pub proof fn law_candidates(ids: Seq<u64>, scores: Seq<u32>, i: int)
    requires
        0 <= i < ids.len(),
    ensures
        candidates(ids, scores).len() == ids.len(),
        candidates(ids, scores)[i].id@ == ids[i],
        candidates(ids, scores)[i].score_bits == scores[i],
{
}

/// Search is deterministic: the `k` best matches in rank order are unique, so
/// any two results that meet the search contract for the same candidates are
/// equal.
pub proof fn lemma_top_k_unique(
    metric: Metric,
    cands: Seq<SearchHit>,
    k: nat,
    a: Seq<SearchHit>,
    b: Seq<SearchHit>,
)
    requires
        is_top_k(metric, cands, k, a),
        is_top_k(metric, cands, k, b),
    ensures
        a == b,
{
    assert forall|t: int| 0 <= t < a.len() implies a[t] == b[t] by {
        lemma_top_k_agree_at(metric, cands, k, a, b, t);
    }
    assert(a =~= b);
}

/// A smaller `k` returns a prefix: the `k1` best matches are the first
/// `min(k1, n)` of the `k2` best ones whenever `k1 <= k2`.
pub proof fn law_top_k_prefix(
    metric: Metric,
    cands: Seq<SearchHit>,
    k1: nat,
    k2: nat,
    a: Seq<SearchHit>,
    b: Seq<SearchHit>,
)
    requires
        k1 <= k2,
        is_top_k(metric, cands, k1, a),
        is_top_k(metric, cands, k2, b),
    ensures
        a == b.take(min_nat(k1, cands.len()) as int),
{
    let m = min_nat(k1, cands.len()) as int;
    let p = b.take(m);
    assert forall|x: int, y: int| 0 <= x < y < p.len() implies hit_before(
        metric,
        #[trigger] p[x],
        #[trigger] p[y],
    ) by {
        assert(p[x] == b[x] && p[y] == b[y]);
    }
    assert forall|t: int| 0 <= t < p.len() implies cands.contains(#[trigger] p[t]) by {
        assert(p[t] == b[t]);
    }
    assert forall|j: int| 0 <= j < cands.len() implies p.contains(#[trigger] cands[j]) || forall|
        t: int,
    | 0 <= t < p.len() ==> hit_before(metric, #[trigger] p[t], cands[j]) by {
        if b.contains(cands[j]) {
            let u = choose|u: int| 0 <= u < b.len() && b[u] == cands[j];
            if u < m {
                assert(p[u] == cands[j]);
            } else {
                assert forall|t: int| 0 <= t < p.len() implies hit_before(
                    metric,
                    #[trigger] p[t],
                    cands[j],
                ) by {
                    assert(p[t] == b[t]);
                    assert(hit_before(metric, b[t], b[u]));
                }
            }
        } else {
            assert forall|t: int| 0 <= t < p.len() implies hit_before(
                metric,
                #[trigger] p[t],
                cands[j],
            ) by {
                assert(p[t] == b[t]);
            }
        }
    }
    assert(is_top_k(metric, cands, k1, p));
    lemma_top_k_unique(metric, cands, k1, a, p);
}

/// Being the `k` best depends on the candidates only as a collection: any
/// reordering of them has the same `k` best.
pub proof fn lemma_top_k_reordered(
    metric: Metric,
    c1: Seq<SearchHit>,
    c2: Seq<SearchHit>,
    k: nat,
    hits: Seq<SearchHit>,
)
    requires
        c1.to_multiset() == c2.to_multiset(),
        is_top_k(metric, c1, k, hits),
    ensures
        is_top_k(metric, c2, k, hits),
{
    c1.to_multiset_ensures();
    c2.to_multiset_ensures();
    assert(c1.len() == c2.len());
    assert forall|x: SearchHit| c1.contains(x) <==> c2.contains(x) by {
        assert(c1.contains(x) <==> c1.to_multiset().count(x) > 0);
        assert(c2.contains(x) <==> c2.to_multiset().count(x) > 0);
    }
    assert forall|t: int| 0 <= t < hits.len() implies c2.contains(#[trigger] hits[t]) by {
        assert(c1.contains(hits[t]));
    }
    assert forall|j: int| 0 <= j < c2.len() implies hits.contains(#[trigger] c2[j]) || forall|
        t: int,
    | 0 <= t < hits.len() ==> hit_before(metric, #[trigger] hits[t], c2[j]) by {
        assert(c2.contains(c2[j]));
        assert(c1.contains(c2[j]));
        let i = choose|i: int| 0 <= i < c1.len() && c1[i] == c2[j];
        assert(hits.contains(c1[i]) || forall|t: int|
            0 <= t < hits.len() ==> hit_before(metric, #[trigger] hits[t], c1[i]));
    }
}

/// Row order never matters: searching the same (id, score) rows in any order
/// returns the same hits.
pub proof fn law_search_ignores_row_order(
    metric: Metric,
    ids1: Seq<u64>,
    scores1: Seq<u32>,
    ids2: Seq<u64>,
    scores2: Seq<u32>,
    k: nat,
    a: Seq<SearchHit>,
    b: Seq<SearchHit>,
)
    requires
        candidates(ids1, scores1).to_multiset() == candidates(ids2, scores2).to_multiset(),
        is_top_k(metric, candidates(ids1, scores1), k, a),
        is_top_k(metric, candidates(ids2, scores2), k, b),
    ensures
        a == b,
{
    lemma_top_k_reordered(metric, candidates(ids1, scores1), candidates(ids2, scores2), k, a);
    lemma_top_k_unique(metric, candidates(ids2, scores2), k, a, b);
}

/// The two results agree at every position up to `t`.
proof fn lemma_top_k_agree_at(
    metric: Metric,
    cands: Seq<SearchHit>,
    k: nat,
    a: Seq<SearchHit>,
    b: Seq<SearchHit>,
    t: int,
)
    requires
        is_top_k(metric, cands, k, a),
        is_top_k(metric, cands, k, b),
        0 <= t < a.len(),
    ensures
        forall|u: int| 0 <= u <= t ==> a[u] == b[u],
    decreases t,
{
    if t > 0 {
        lemma_top_k_agree_at(metric, cands, k, a, b, t - 1);
    }
    let x = a[t];
    let y = b[t];
    if x != y {
        lemma_top_k_order(metric, cands, k, a, b, t);
        lemma_top_k_order(metric, cands, k, b, a, t);
        lemma_hit_before_total(metric, x, y);
        lemma_hit_before_asymmetric(metric, x, y);
    }
}

/// With both results equal before position `t`, the hit of `a` at `t` does not
/// rank after the hit of `b` at `t`.
proof fn lemma_top_k_order(
    metric: Metric,
    cands: Seq<SearchHit>,
    k: nat,
    a: Seq<SearchHit>,
    b: Seq<SearchHit>,
    t: int,
)
    requires
        is_top_k(metric, cands, k, a),
        is_top_k(metric, cands, k, b),
        0 <= t < a.len(),
        forall|u: int| 0 <= u < t ==> a[u] == b[u],
    ensures
        !hit_before(metric, b[t], a[t]),
{
    let x = a[t];
    let y = b[t];
    lemma_hit_before_asymmetric(metric, x, y);
    if hit_before(metric, y, x) {
        // `y` is a candidate; in `a` it would sit before `x`, at a position
        // below `t` that already holds a hit of `b`, or it is left out of `a`
        // and then ranks after `x`.
        let cj = choose|j: int| 0 <= j < cands.len() && cands[j] == y;
        assert(cands.contains(b[t]));
        if a.contains(y) {
            let u = choose|u: int| 0 <= u < a.len() && a[u] == y;
            if u < t {
                assert(b[u] == y);
                assert(hit_before(metric, b[u], b[t]));
                lemma_hit_before_asymmetric(metric, y, y);
            } else if u == t {
                lemma_hit_before_asymmetric(metric, y, y);
            } else {
                assert(hit_before(metric, a[t], a[u]));
            }
        } else {
            assert(hit_before(metric, a[t], cands[cj]));
        }
    }
}

/// Returns true when hit `a` ranks strictly before hit `b`.
fn hit_precedes(metric: Metric, a: &SearchHit, b: &SearchHit) -> (before: bool)
    ensures
        before == hit_before(metric, *a, *b),
{
    match metric.compare_scores(a.score_bits, b.score_bits) {
        Ordering::Less => true,
        Ordering::Greater => false,
        Ordering::Equal => a.id.get() < b.id.get(),
    }
}

/// Selects the `k` best of the scored rows, best first, ties broken by the
/// smaller id.
pub fn rank_hits(metric: Metric, ids: &[VectorId], scores: &[u32], k: usize) -> (hits: Vec<
    SearchHit,
>)
    requires
        ids@.len() == scores@.len(),
        raw_ids(ids@).no_duplicates(),
    ensures
        is_top_k(metric, candidates(raw_ids(ids@), scores@), k as nat, hits@),
{
    let ghost cands = candidates(raw_ids(ids@), scores@);
    let mut hits: Vec<SearchHit> = Vec::new();
    let n = ids.len();
    if k == 0 {
        return hits;
    }
    let mut i: usize = 0;
    while i < n
        invariant
            n == ids@.len(),
            n == scores@.len(),
            k > 0,
            raw_ids(ids@).no_duplicates(),
            cands == candidates(raw_ids(ids@), scores@),
            0 <= i <= n,
            hits@.len() == min_nat(k as nat, i as nat),
            ranked(metric, hits@),
            forall|t: int| 0 <= t < hits@.len() ==> cands.take(i as int).contains(#[trigger] hits@[t]),
            forall|j: int|
                0 <= j < i ==> hits@.contains(#[trigger] cands[j]) || (hits@.len() == k && forall|
                    t: int,
                | 0 <= t < hits@.len() ==> hit_before(metric, #[trigger] hits@[t], cands[j])),
        decreases n - i,
    {
        let c = SearchHit { id: ids[i], score_bits: scores[i] };
        assert(c == cands[i as int]);
        let mut p: usize = 0;
        while p < hits.len() && !hit_precedes(metric, &c, &hits[p])
            invariant
                0 <= p <= hits@.len(),
                forall|t: int| 0 <= t < p ==> !hit_before(metric, c, #[trigger] hits@[t]),
            decreases hits@.len() - p,
        {
            p = p + 1;
        }
        let ghost old_hits = hits@;
        proof {
            // Everything at or after `p` ranks after `c`; everything before it, before `c`.
            assert forall|t: int| p <= t < old_hits.len() implies hit_before(
                metric,
                c,
                #[trigger] old_hits[t],
            ) by {
                if t > p {
                    lemma_hit_before_transitive(metric, c, old_hits[p as int], old_hits[t]);
                }
            }
            assert forall|t: int| 0 <= t < p implies hit_before(metric, #[trigger] old_hits[t], c) by {
                // `c` is a new candidate, so it differs from every earlier hit.
                let j = choose|j: int| 0 <= j < i && cands.take(i as int)[j] == old_hits[t];
                assert(cands[j] == old_hits[t]);
                if old_hits[t] == c {
                    assert(cands[j].id == ids@[j]);
                    assert(ids@[j] == ids@[i as int]);
                    assert(raw_ids(ids@)[j] == raw_ids(ids@)[i as int]);
                    assert(false);
                }
                lemma_hit_before_total(metric, old_hits[t], c);
            }
        }
        hits.insert(p, c);
        let ghost inserted = hits@;
        proof {
            assert forall|a: int, b: int| 0 <= a < b < inserted.len() implies hit_before(
                metric,
                #[trigger] inserted[a],
                #[trigger] inserted[b],
            ) by {
                if b < p {
                } else if b == p {
                } else if a < p {
                    lemma_hit_before_transitive(metric, inserted[a], c, inserted[b]);
                } else if a == p {
                } else {
                }
            }
        }
        if hits.len() > k {
            hits.pop();
        }
        proof {
            let cut = hits@;
            assert(cut.len() <= inserted.len());
            assert forall|t: int| 0 <= t < cut.len() implies cut[t] == inserted[t] by {}
            assert(ranked(metric, cut)) by {
                assert forall|a: int, b: int| 0 <= a < b < cut.len() implies hit_before(
                    metric,
                    #[trigger] cut[a],
                    #[trigger] cut[b],
                ) by {
                    assert(cut[a] == inserted[a] && cut[b] == inserted[b]);
                }
            }
            assert forall|t: int| 0 <= t < cut.len() implies cands.take(i + 1).contains(
                #[trigger] cut[t],
            ) by {
                assert(cut[t] == inserted[t]);
                if t == p {
                    assert(cands.take(i + 1)[i as int] == c);
                } else {
                    let s = if t < p { t } else { t - 1 };
                    assert(inserted[t] == old_hits[s]);
                    let j = choose|j: int| 0 <= j < i && cands.take(i as int)[j] == old_hits[s];
                    assert(cands.take(i + 1)[j] == old_hits[s]);
                }
            }
            // A hit that is still listed stays; one that was cut ranks after all that remain.
            assert forall|x: int| 0 <= x < inserted.len() implies cut.contains(#[trigger] inserted[x])
                || (cut.len() == k && forall|t: int|
                0 <= t < cut.len() ==> hit_before(metric, #[trigger] cut[t], inserted[x])) by {
                if x < cut.len() {
                    assert(cut[x] == inserted[x]);
                } else {
                    assert forall|t: int| 0 <= t < cut.len() implies hit_before(
                        metric,
                        #[trigger] cut[t],
                        inserted[x],
                    ) by {
                        assert(cut[t] == inserted[t]);
                    }
                }
            }
            assert forall|j: int| 0 <= j < i + 1 implies cut.contains(#[trigger] cands[j]) || (
            cut.len() == k && forall|t: int|
                0 <= t < cut.len() ==> hit_before(metric, #[trigger] cut[t], cands[j])) by {
                if j == i {
                    assert(inserted[p as int] == c);
                } else if old_hits.contains(cands[j]) {
                    let s = choose|s: int| 0 <= s < old_hits.len() && old_hits[s] == cands[j];
                    let x = if s < p { s } else { s + 1 };
                    assert(inserted[x] == cands[j]);
                } else {
                    // The list was full and this candidate ranked after all of it.
                    assert forall|t: int| 0 <= t < cut.len() implies hit_before(
                        metric,
                        #[trigger] cut[t],
                        cands[j],
                    ) by {
                        assert(cut[t] == inserted[t]);
                        if t < p {
                            assert(inserted[t] == old_hits[t]);
                        } else if t == p {
                            let last = old_hits[old_hits.len() - 1];
                            assert(hit_before(metric, c, last));
                            assert(hit_before(metric, last, cands[j]));
                            lemma_hit_before_transitive(metric, c, last, cands[j]);
                        } else {
                            assert(inserted[t] == old_hits[t - 1]);
                        }
                    }
                }
            }
        }
        i = i + 1;
    }
    proof {
        assert(cands.take(n as int) =~= cands);
    }
    hits
}


/// Immutable, owned copy of a store that can be searched independently.
#[derive(Debug)]
pub struct SearchSnapshot {
    dimensions: usize,
    metric: Metric,
    ids: Vec<VectorId>,
    vectors: Vec<u32>,
}

impl View for SearchSnapshot {
    type V = StoreView;

    closed spec fn view(&self) -> StoreView {
        StoreView {
            metric: self.metric,
            dims: self.dimensions as nat,
            ids: raw_ids(self.ids@),
            flat: self.vectors@,
        }
    }
}

impl Clone for SearchSnapshot {
    /// An independent copy of the snapshot.
    fn clone(&self) -> (copy: Self)
        ensures
            copy@ == self@,
    {
        Self {
            dimensions: self.dimensions,
            metric: self.metric,
            ids: vstd::slice::slice_to_vec(self.ids.as_slice()),
            vectors: vstd::slice::slice_to_vec(self.vectors.as_slice()),
        }
    }
}

impl SearchSnapshot {
    /// Copies the ids and values of `storage`.
    pub(crate) fn new(storage: &VectorStorage, metric: Metric) -> (snapshot: Self)
        ensures
            snapshot@ == (StoreView {
                metric,
                dims: storage.dims(),
                ids: storage.id_seq(),
                flat: storage.flat(),
            }),
    {
        Self {
            dimensions: storage.dimensions(),
            metric,
            ids: vstd::slice::slice_to_vec(storage.ids()),
            vectors: vstd::slice::slice_to_vec(storage.vectors()),
        }
    }

    /// Searches the snapshot and returns up to `k` best matches, best first.
    ///
    /// `scores[i]` is the metric score of `query` against row `i` of the
    /// snapshot.
    pub fn search(&self, query: &[u32], scores: &[u32], k: usize) -> (result: Result<
        Vec<SearchHit>,
        Error,
    >)
        requires
            self@.well_formed(),
            scores@.len() == self@.len(),
        ensures
            match result {
                Ok(hits) => {
                    &&& query@.len() == self@.dims
                    &&& valid_vector(self@.metric, query@)
                    &&& is_top_k(self@.metric, candidates(self@.ids, scores@), k as nat, hits@)
                },
                Err(e) => if query@.len() != self@.dims {
                    e == Error::DimensionMismatch { expected: self@.dims as usize, actual: query@.len() as usize }
                } else {
                    !valid_vector(self@.metric, query@) && e == vector_error(self@.metric, query@)
                },
            },
    {
        search_flat(self.dimensions, self.metric, self.ids.as_slice(), query, scores, k)
    }

    /// Returns the fixed vector dimension of this snapshot.
    pub fn dimensions(&self) -> (d: usize)
        ensures
            d == self@.dims,
    {
        self.dimensions
    }

    /// Returns the metric used by this snapshot.
    pub fn metric(&self) -> (metric: Metric)
        ensures
            metric == self@.metric,
    {
        self.metric
    }

    /// Returns the number of vectors in this snapshot.
    pub fn len(&self) -> (n: usize)
        ensures
            n == self@.len(),
    {
        self.ids.len()
    }

    /// Returns true when this snapshot contains no vectors.
    pub fn is_empty(&self) -> (empty: bool)
        ensures
            empty == (self@.len() == 0),
    {
        self.ids.len() == 0
    }

    /// The ids in row order.
    pub fn ids(&self) -> (ids: &[VectorId])
        ensures
            raw_ids(ids@) == self@.ids,
    {
        self.ids.as_slice()
    }

    /// All values, row after row.
    pub fn vectors(&self) -> (values: &[u32])
        ensures
            values@ == self@.flat,
    {
        self.vectors.as_slice()
    }
}

/// Searches `storage` under `metric`: validates the query and returns up to `k`
/// best rows, best first.
///
/// `scores[i]` is the metric score of `query` against row `i` of the storage.
pub fn search_storage(
    storage: &VectorStorage,
    metric: Metric,
    query: &[u32],
    scores: &[u32],
    k: usize,
) -> (result: Result<Vec<SearchHit>, Error>)
    requires
        storage.wf(),
        scores@.len() == storage.id_seq().len(),
    ensures
        match result {
            Ok(hits) => {
                &&& query@.len() == storage.dims()
                &&& valid_vector(metric, query@)
                &&& is_top_k(metric, candidates(storage.id_seq(), scores@), k as nat, hits@)
            },
            Err(e) => if query@.len() != storage.dims() {
                e == Error::DimensionMismatch { expected: storage.dims() as usize, actual: query@.len() as usize }
            } else {
                !valid_vector(metric, query@) && e == vector_error(metric, query@)
            },
        },
{
    search_flat(storage.dimensions(), metric, storage.ids(), query, scores, k)
}

/// Validates a query and ranks the scored rows against it.
///
/// `scores[i]` is the metric score of the query against row `i`, whose id is
/// `ids[i]`. The query must have `dimensions` values, all finite, and must not be
/// the zero vector under cosine similarity; then the `k` best rows come back,
/// best first.
pub fn search_flat(
    dimensions: usize,
    metric: Metric,
    ids: &[VectorId],
    query: &[u32],
    scores: &[u32],
    k: usize,
) -> (result: Result<Vec<SearchHit>, Error>)
    requires
        ids@.len() == scores@.len(),
        raw_ids(ids@).no_duplicates(),
    ensures
        match result {
            Ok(hits) => {
                &&& query@.len() == dimensions
                &&& valid_vector(metric, query@)
                &&& is_top_k(metric, candidates(raw_ids(ids@), scores@), k as nat, hits@)
            },
            Err(e) => if query@.len() != dimensions {
                e == Error::DimensionMismatch { expected: dimensions, actual: query@.len() as usize }
            } else {
                !valid_vector(metric, query@) && e == vector_error(metric, query@)
            },
        },
{
    if query.len() != dimensions {
        return Err(Error::DimensionMismatch { expected: dimensions, actual: query.len() });
    }
    match validate_vector(metric, query) {
        Ok(()) => {},
        Err(e) => {
            return Err(e);
        },
    }
    if k == 0 || ids.len() == 0 {
        let hits: Vec<SearchHit> = Vec::new();
        assert(is_top_k(metric, candidates(raw_ids(ids@), scores@), k as nat, hits@));
        return Ok(hits);
    }
    Ok(rank_hits(metric, ids, scores, k))
}

} // verus!

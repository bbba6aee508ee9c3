//! Library-wide laws, each proved from the public contracts alone.

use vstd::prelude::*;
use crate::collection::{
    search_hits_post, search_hits_witness, upsert_post, Collection, SearchHit,
};
use crate::metric::{dist_spec, lemma_l2_self, Metric};

verus! {

/// Exact self-query law: when the effective beam width (`search_breadth`
/// raised to `top_k`) covers the whole collection and some stored record
/// is at distance zero from the query — under L2, any record whose vector
/// equals the query (`lemma_l2_self`); under cosine, additionally any
/// non-zero positive multiple of it (`lemma_cosine_self` for the equal
/// case) — the first hit of a successful search is at distance zero.
pub proof fn lemma_self_query_hits_zero(
    c: Collection,
    q: Seq<i32>,
    hits: Seq<SearchHit>,
    k: int,
    t: int,
)
    requires
        c.wf(),
        search_hits_post(hits, c, q, k),
        (if c.config.search_breadth as int >= k {
            c.config.search_breadth as int
        } else {
            k
        }) >= c.count(),
        k >= 1,
        0 <= t < c.records@.len(),
        dist_spec(c.config.distance, q, c.records@[t].vector@) == 0,
    ensures
        hits.len() >= 1,
        hits[0].distance == 0,
{
    let idxs = choose|idxs: Seq<int>| search_hits_witness(hits, c, q, k, idxs);
    if idxs.contains(t) {
        let p = choose|p: int| 0 <= p < idxs.len() && idxs[p] == t;
        assert(hits[p].distance == 0);
        if p > 0 {
            assert(hits[0].dist_lt(hits[p]) || (hits[0].distance == hits[p].distance
                && idxs[0] < idxs[p]));
        }
    } else {
        assert(hits[0].distance < 0 || (hits[0].distance == 0 && idxs[0] < t));
    }
}

/// When exactly one record sits at distance zero from the query, a
/// covering search returns that record's id as the closest result.
pub proof fn lemma_unique_self_query(
    c: Collection,
    q: Seq<i32>,
    hits: Seq<SearchHit>,
    k: int,
    t: int,
)
    requires
        c.wf(),
        search_hits_post(hits, c, q, k),
        (if c.config.search_breadth as int >= k {
            c.config.search_breadth as int
        } else {
            k
        }) >= c.count(),
        k >= 1,
        0 <= t < c.records@.len(),
        dist_spec(c.config.distance, q, c.records@[t].vector@) == 0,
        forall|u: int|
            0 <= u < c.records@.len() && u != t ==> dist_spec(
                c.config.distance,
                q,
                (#[trigger] c.records@[u]).vector@,
            ) != 0,
    ensures
        hits.len() >= 1,
        hits[0].distance == 0,
        hits[0].id == c.records@[t].id,
{
    lemma_self_query_hits_zero(c, q, hits, k, t);
    let idxs = choose|idxs: Seq<int>| search_hits_witness(hits, c, q, k, idxs);
    assert(hits[0].distance == dist_spec(c.config.distance, q, c.records@[idxs[0]].vector@));
    assert(idxs[0] == t);
}

/// The self-query law under L2: a stored copy of the query vector puts the
/// first hit at distance zero whenever the beam width covers the
/// collection.
pub proof fn lemma_l2_self_query(
    c: Collection,
    q: Seq<i32>,
    hits: Seq<SearchHit>,
    k: int,
    t: int,
)
    requires
        c.wf(),
        c.config.distance == Metric::L2,
        search_hits_post(hits, c, q, k),
        (if c.config.search_breadth as int >= k {
            c.config.search_breadth as int
        } else {
            k
        }) >= c.count(),
        k >= 1,
        0 <= t < c.records@.len(),
        c.records@[t].vector@ == q,
    ensures
        hits.len() >= 1,
        hits[0].distance == 0,
{
    lemma_l2_self(q);
    lemma_self_query_hits_zero(c, q, hits, k, t);
}

/// Round-trip law: with `top_k` at least the record count, a search
/// returns one hit per record; if the stored external ids are distinct,
/// the returned ids are distinct too, and distances never decrease along
/// the result.
pub proof fn lemma_round_trip(c: Collection, q: Seq<i32>, hits: Seq<SearchHit>, k: int)
    requires
        c.wf(),
        search_hits_post(hits, c, q, k),
        k >= c.count(),
        forall|i: int, j: int|
            0 <= i < c.records@.len() && 0 <= j < c.records@.len() && i != j ==> (
            #[trigger] c.records@[i]).id != (#[trigger] c.records@[j]).id,
    ensures
        hits.len() == c.count(),
        forall|i: int, j: int|
            0 <= i < hits.len() && 0 <= j < hits.len() && i != j ==> (#[trigger] hits[i]).id != (
            #[trigger] hits[j]).id,
        forall|i: int, j: int|
            0 <= i < j < hits.len() ==> (#[trigger] hits[i]).distance
                <= (#[trigger] hits[j]).distance,
{
    let idxs = choose|idxs: Seq<int>| search_hits_witness(hits, c, q, k, idxs);
    assert forall|i: int, j: int|
        0 <= i < hits.len() && 0 <= j < hits.len() && i != j implies (#[trigger] hits[i]).id != (
    #[trigger] hits[j]).id by {
        assert(hits[i].id == c.records@[idxs[i]].id);
        assert(hits[j].id == c.records@[idxs[j]].id);
        assert(idxs[i] != idxs[j]);
    }
    assert forall|i: int, j: int| 0 <= i < j < hits.len() implies (#[trigger] hits[i]).distance
        <= (#[trigger] hits[j]).distance by {
        assert(hits[i].dist_lt(hits[j]) || (hits[i].distance == hits[j].distance && idxs[i]
            < idxs[j]));
    }
}

/// One direction of the uniqueness argument: with equal prefixes of the
/// witness indices below `m`, the `m`-th entry of the first result is no
/// worse than the `m`-th entry of the second under the
/// `(distance, record index)` order.
proof fn lemma_key_le(
    c: Collection,
    q: Seq<i32>,
    k: int,
    h1: Seq<SearchHit>,
    x1: Seq<int>,
    h2: Seq<SearchHit>,
    x2: Seq<int>,
    m: int,
)
    requires
        c.wf(),
        search_hits_witness(h1, c, q, k, x1),
        search_hits_witness(h2, c, q, k, x2),
        (if c.config.search_breadth as int >= k {
            c.config.search_breadth as int
        } else {
            k
        }) >= c.count(),
        0 <= m < h1.len(),
        h1.len() == h2.len(),
        forall|j: int| 0 <= j < m ==> x1[j] == x2[j],
    ensures
        h1[m].distance < h2[m].distance || (h1[m].distance == h2[m].distance && x1[m] <= x2[m]),
{
    let r = x2[m];
    assert(h2[m].distance == dist_spec(c.config.distance, q, c.records@[r].vector@));
    if x1.contains(r) {
        let p = choose|p: int| 0 <= p < x1.len() && x1[p] == r;
        if p < m {
            assert(x1[p] == x2[p]);
            assert(x2[p] == x2[m]);
            assert(false);
        }
        assert(h1[p].distance == dist_spec(c.config.distance, q, c.records@[r].vector@));
        if p > m {
            assert(h1[m].dist_lt(h1[p]) || (h1[m].distance == h1[p].distance && x1[m] < x1[p]));
        }
    } else {
        assert(h1[m].distance < dist_spec(c.config.distance, q, c.records@[r].vector@) || (
        h1[m].distance == dist_spec(c.config.distance, q, c.records@[r].vector@) && x1[m] < r));
    }
}

/// Equal prefixes propagate: the two results and their witness indices
/// agree on every position below `i`.
proof fn lemma_unique_prefix(
    c: Collection,
    q: Seq<i32>,
    k: int,
    h1: Seq<SearchHit>,
    x1: Seq<int>,
    h2: Seq<SearchHit>,
    x2: Seq<int>,
    i: int,
)
    requires
        c.wf(),
        search_hits_witness(h1, c, q, k, x1),
        search_hits_witness(h2, c, q, k, x2),
        (if c.config.search_breadth as int >= k {
            c.config.search_breadth as int
        } else {
            k
        }) >= c.count(),
        0 <= i <= h1.len(),
        h1.len() == h2.len(),
    ensures
        forall|j: int| 0 <= j < i ==> h1[j] == h2[j] && x1[j] == x2[j],
    decreases i,
{
    if i > 0 {
        lemma_unique_prefix(c, q, k, h1, x1, h2, x2, i - 1);
        let m = i - 1;
        lemma_key_le(c, q, k, h1, x1, h2, x2, m);
        lemma_key_le(c, q, k, h2, x2, h1, x1, m);
        assert(h1[m].distance == h2[m].distance && x1[m] == x2[m]);
        assert(h1[m].id == c.records@[x1[m]].id);
        assert(h2[m].id == c.records@[x2[m]].id);
        assert(h1[m] == h2[m]);
    }
}

/// Read-only search is reproducible: when the effective beam width covers
/// the collection, the search contract pins the result completely, so two
/// successful searches of the same query with no intervening change return
/// identical results.
pub proof fn lemma_search_deterministic(
    c: Collection,
    q: Seq<i32>,
    k: int,
    h1: Seq<SearchHit>,
    h2: Seq<SearchHit>,
)
    requires
        c.wf(),
        search_hits_post(h1, c, q, k),
        search_hits_post(h2, c, q, k),
        (if c.config.search_breadth as int >= k {
            c.config.search_breadth as int
        } else {
            k
        }) >= c.count(),
    ensures
        h1 =~= h2,
{
    let x1 = choose|x: Seq<int>| search_hits_witness(h1, c, q, k, x);
    let x2 = choose|x: Seq<int>| search_hits_witness(h2, c, q, k, x);
    lemma_unique_prefix(c, q, k, h1, x1, h2, x2, h1.len() as int);
}

/// No lost update: when two whole batches are applied in sequence — and
/// under the registry's exclusive lock discipline any two concurrent
/// upserts apply in one of the two sequential orders — the final store
/// holds both batches in full, after everything that was there before.
pub proof fn lemma_no_lost_update(
    c0: Collection,
    c1: Collection,
    c2: Collection,
    ids_a: Seq<u64>,
    vecs_a: Seq<Vec<i32>>,
    pays_a: Seq<String>,
    ids_b: Seq<u64>,
    vecs_b: Seq<Vec<i32>>,
    pays_b: Seq<String>,
)
    requires
        upsert_post(c0, c1, Ok(()), ids_a, vecs_a, pays_a),
        upsert_post(c1, c2, Ok(()), ids_b, vecs_b, pays_b),
    ensures
        c2.count() == c0.count() + ids_a.len() + ids_b.len(),
        forall|j: int|
            0 <= j < ids_a.len() ==> (#[trigger] c2.records@[c0.records@.len() + j]).id
                == ids_a[j],
        forall|j: int|
            0 <= j < ids_b.len() ==> (#[trigger] c2.records@[c0.records@.len() + ids_a.len()
                + j]).id == ids_b[j],
{
    assert forall|j: int|
        0 <= j < ids_a.len() implies (#[trigger] c2.records@[c0.records@.len() + j]).id
        == ids_a[j] by {
        assert(c2.records@[c0.records@.len() + j] == c1.records@[c0.records@.len() + j]);
        assert(c1.records@[c0.records@.len() + j].id == ids_a[j]);
    }
}

} // verus!

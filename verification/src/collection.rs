//! A collection: one configuration, one record store and one proximity
//! graph, created once and mutated only through `upsert`.
//!
//! Batches are validated in full before any mutation, so a failed `upsert`
//! never applies part of a batch. Re-upserting an existing external id
//! appends a second record rather than replacing the first (append-duplicate
//! policy): identity of a stored record is its position, and searches may
//! then report the same external id twice.

use vstd::prelude::*;
use crate::errors::VectorDbError;
use crate::graph::{cand_le, cands_valid, nodes_of, ProximityGraph};
use crate::metric::{dist_spec, Metric};

verus! {

/// Seed of the deterministic layer generator a new collection starts with.
pub const LAYER_SEED: u64 = 0x5851F42D4C957F2D;

/// Immutable per-collection configuration.
#[derive(Clone, Copy, Debug, PartialEq, Eq, Structural)]
pub struct CollectionConfig {
    /// The distance metric every insert and search uses.
    pub distance: Metric,
    /// Per-layer degree bound of the graph (doubled at layer 0).
    pub max_neighbors_per_node: usize,
    /// Beam width for graph construction and search.
    pub search_breadth: usize,
    /// Hard capacity of the collection.
    pub max_elements: usize,
}

impl CollectionConfig {
    /// A usable configuration: positive parameters, with the doubled
    /// layer-0 degree bound still within the machine's range.
    pub open spec fn valid(self) -> bool {
        &&& 1 <= self.max_neighbors_per_node
        &&& 2 * self.max_neighbors_per_node <= usize::MAX
        &&& 1 <= self.search_breadth
        &&& 1 <= self.max_elements
    }

    /// Decides validity exactly.
    pub fn check(&self) -> (r: bool)
        ensures
            r == self.valid(),
    {
        1 <= self.max_neighbors_per_node && self.max_neighbors_per_node <= usize::MAX / 2
            && 1 <= self.search_breadth && 1 <= self.max_elements
    }
}

/// One stored record. The payload is an opaque blob: the library stores it
/// and returns it verbatim, never inspecting its structure.
pub struct Record {
    pub id: u64,
    pub vector: Vec<i32>,
    pub payload: String,
}

/// One search result: the record's external id and its exact distance.
#[derive(Clone, Copy, Debug, PartialEq, Eq, Structural)]
pub struct SearchHit {
    pub id: u64,
    pub distance: u128,
}

/// The batches of an upsert have one entry per record.
pub open spec fn batch_arity_ok(ids: Seq<u64>, vectors: Seq<Vec<i32>>, payloads: Seq<String>) -> bool {
    ids.len() == vectors.len() && ids.len() == payloads.len()
}

/// Every vector of the batch has the collection's dimension.
pub open spec fn batch_dims_ok(vectors: Seq<Vec<i32>>, dim: int) -> bool {
    forall|i: int| 0 <= i < vectors.len() ==> (#[trigger] vectors[i])@.len() == dim
}

pub struct Collection {
    pub config: CollectionConfig,
    /// Vector length, fixed at creation.
    pub dim: usize,
    pub records: Vec<Record>,
    pub graph: ProximityGraph,
}

/// Everything `upsert` promises: on success the batch is appended in order,
/// exactly; on failure the collection is untouched and the error names the
/// first violated rule (arity, then dimensions, then capacity).
pub open spec fn upsert_post(
    pre: Collection,
    post: Collection,
    r: Result<(), VectorDbError>,
    ids: Seq<u64>,
    vectors: Seq<Vec<i32>>,
    payloads: Seq<String>,
) -> bool {
    &&& post.wf()
    &&& post.config == pre.config
    &&& post.dim == pre.dim
    &&& match r {
        Ok(u) => {
            &&& batch_arity_ok(ids, vectors, payloads)
            &&& batch_dims_ok(vectors, pre.dim as int)
            &&& pre.count() + ids.len() <= pre.config.max_elements
            &&& post.records@.len() == pre.records@.len() + ids.len()
            &&& forall|i: int|
                0 <= i < pre.records@.len() ==> post.records@[i] == pre.records@[i]
            &&& forall|j: int|
                0 <= j < ids.len() ==> {
                    &&& (#[trigger] post.records@[pre.records@.len() + j]).id == ids[j]
                    &&& post.records@[pre.records@.len() + j].vector@ == vectors[j]@
                    &&& post.records@[pre.records@.len() + j].payload@ == payloads[j]@
                }
        },
        Err(e) => {
            &&& post.records@ == pre.records@
            &&& post.count() == pre.count()
            &&& (e == VectorDbError::ArityMismatch <==> !batch_arity_ok(ids, vectors, payloads))
            &&& (e == VectorDbError::DimensionMismatch <==> batch_arity_ok(ids, vectors, payloads)
                && !batch_dims_ok(vectors, pre.dim as int))
            &&& (e == VectorDbError::CapacityExceeded <==> batch_arity_ok(ids, vectors, payloads)
                && batch_dims_ok(vectors, pre.dim as int) && pre.count() + ids.len()
                > pre.config.max_elements)
            &&& (e == VectorDbError::ArityMismatch || e == VectorDbError::DimensionMismatch
                || e == VectorDbError::CapacityExceeded)
        },
    }
}

/// Everything a successful `search` promises, through a witness sequence of
/// record indices: the hits name distinct stored records with their exact
/// distances, in ascending `(distance, record index)` order, exactly
/// `min(top_k, count)` of them; and whenever the effective beam width
/// (`search_breadth` raised to `top_k`) reaches the record count, no other
/// record beats a returned one.
pub open spec fn search_hits_witness(
    hits: Seq<SearchHit>,
    c: Collection,
    q: Seq<i32>,
    k: int,
    idxs: Seq<int>,
) -> bool {
    &&& idxs.len() == hits.len()
    &&& hits.len() == if k <= c.records@.len() {
        k
    } else {
        c.records@.len() as int
    }
    &&& forall|i: int|
        0 <= i < hits.len() ==> {
            &&& 0 <= (#[trigger] idxs[i]) < c.records@.len()
            &&& hits[i].id == c.records@[idxs[i]].id
            &&& hits[i].distance == dist_spec(c.config.distance, q, c.records@[idxs[i]].vector@)
        }
    &&& forall|i: int, j: int|
        0 <= i < j < hits.len() ==> ((#[trigger] hits[i]).dist_lt((#[trigger] hits[j]))
            || (hits[i].distance == hits[j].distance && idxs[i] < idxs[j]))
    &&& forall|i: int, j: int|
        0 <= i < idxs.len() && 0 <= j < idxs.len() && i != j ==> (#[trigger] idxs[i])
            != (#[trigger] idxs[j])
    &&& ((if c.config.search_breadth as int >= k {
        c.config.search_breadth as int
    } else {
        k
    }) >= c.records@.len() ==> forall|t: int, i: int|
        0 <= t < c.records@.len() && !idxs.contains(t) && 0 <= i < hits.len() ==> ((
        #[trigger] hits[i]).distance < dist_spec(
            c.config.distance,
            q,
            (#[trigger] c.records@[t]).vector@,
        ) || (hits[i].distance == dist_spec(c.config.distance, q, c.records@[t].vector@)
            && idxs[i] < t)))
}

impl SearchHit {
    /// Strictly closer than the other hit.
    pub open spec fn dist_lt(self, other: SearchHit) -> bool {
        self.distance < other.distance
    }
}

/// A successful search has some witness index sequence.
pub open spec fn search_hits_post(hits: Seq<SearchHit>, c: Collection, q: Seq<i32>, k: int) -> bool {
    exists|idxs: Seq<int>| search_hits_witness(hits, c, q, k, idxs)
}

/// Copies a vector of components.
fn copy_vec(v: &Vec<i32>) -> (r: Vec<i32>)
    ensures
        r@ == v@,
{
    let mut r: Vec<i32> = Vec::new();
    let mut i: usize = 0;
    while i < v.len()
        invariant
            i <= v@.len(),
            r@ == v@.take(i as int),
        decreases v@.len() - i,
    {
        r.push(v[i]);
        proof {
            assert(v@.take(i as int).push(v@[i as int]) =~= v@.take(i as int + 1));
        }
        i = i + 1;
    }
    proof {
        assert(v@.take(v@.len() as int) =~= v@);
    }
    r
}

impl Collection {
    /// Stored records, graph nodes and vectors correspond one to one, and
    /// the graph carries exactly the collection's configuration.
    pub open spec fn wf(self) -> bool {
        &&& self.graph.wf()
        &&& self.config.valid()
        &&& self.dim >= 1
        &&& self.graph.metric == self.config.distance
        &&& self.graph.dim == self.dim
        &&& self.graph.max_neighbors == self.config.max_neighbors_per_node
        &&& self.graph.search_breadth == self.config.search_breadth
        &&& self.graph.max_elements == self.config.max_elements
        &&& self.records@.len() == self.graph.node_count()
        &&& forall|i: int|
            0 <= i < self.records@.len() ==> (#[trigger] self.records@[i]).vector@
                == self.graph.vectors@[i]@
    }

    pub open spec fn count(self) -> nat {
        self.records@.len()
    }

    /// Creates an empty collection bound to `config` and `dim`; fails with
    /// `InvalidConfig` exactly when a parameter is zero, the doubled degree
    /// bound overflows, or `dim` is zero.
    pub fn new(config: CollectionConfig, dim: usize) -> (r: Result<Collection, VectorDbError>)
        ensures
            match r {
                Ok(c) => {
                    &&& config.valid()
                    &&& dim >= 1
                    &&& c.wf()
                    &&& c.count() == 0
                    &&& c.config == config
                    &&& c.dim == dim
                },
                Err(e) => {
                    &&& e == VectorDbError::InvalidConfig
                    &&& (!config.valid() || dim == 0)
                },
            },
    {
        if !config.check() || dim == 0 {
            return Err(VectorDbError::InvalidConfig);
        }
        Ok(
            Collection {
                config,
                dim,
                records: Vec::new(),
                graph: ProximityGraph {
                    metric: config.distance,
                    dim,
                    max_neighbors: config.max_neighbors_per_node,
                    search_breadth: config.search_breadth,
                    max_elements: config.max_elements,
                    vectors: Vec::new(),
                    nodes: Vec::new(),
                    entry_point: 0,
                    top_layer: 0,
                    rng_state: LAYER_SEED,
                },
            },
        )
    }

    /// Appends a batch of records, inserting each vector into the graph.
    /// The whole batch is validated before any mutation: on error nothing
    /// changes. Checks run in order: arity, dimensions, capacity.
    #[verifier::loop_isolation(false)]
    pub fn upsert(&mut self, ids: Vec<u64>, vectors: Vec<Vec<i32>>, payloads: Vec<String>) -> (r:
        Result<(), VectorDbError>)
        requires
            old(self).wf(),
        ensures
            upsert_post(*old(self), *final(self), r, ids@, vectors@, payloads@),
    {
        let n = ids.len();
        if vectors.len() != n || payloads.len() != n {
            return Err(VectorDbError::ArityMismatch);
        }
        let mut i: usize = 0;
        while i < n
            invariant
                i <= n,
                forall|t: int| 0 <= t < i ==> (#[trigger] vectors@[t])@.len() == self.dim,
            decreases n - i,
        {
            if vectors[i].len() != self.dim {
                return Err(VectorDbError::DimensionMismatch);
            }
            i = i + 1;
        }
        if n > self.config.max_elements - self.records.len() {
            return Err(VectorDbError::CapacityExceeded);
        }
        let mut j: usize = 0;
        while j < n
            invariant
                j <= n,
                self.wf(),
                self.config == old(self).config,
                self.dim == old(self).dim,
                self.records@.len() == old(self).records@.len() + j,
                forall|t: int|
                    0 <= t < old(self).records@.len() ==> self.records@[t] == old(
                        self,
                    ).records@[t],
                forall|t: int|
                    0 <= t < j ==> {
                        &&& (#[trigger] self.records@[old(self).records@.len() + t]).id == ids@[t]
                        &&& self.records@[old(self).records@.len() + t].vector@ == vectors@[t]@
                        &&& self.records@[old(self).records@.len() + t].payload@ == payloads@[t]@
                    },
            decreases n - j,
        {
            let vcopy = copy_vec(&vectors[j]);
            let res = self.graph.insert(vcopy);
            if res.is_err() {
                proof {
                    assert(false);
                }
                return Err(VectorDbError::CapacityExceeded);
            }
            let rec = Record {
                id: ids[j],
                vector: copy_vec(&vectors[j]),
                payload: payloads[j].clone(),
            };
            self.records.push(rec);
            j = j + 1;
        }
        Ok(())
    }

    /// Searches for the `top_k` nearest records to `query`, using the
    /// configured beam width (raised to `top_k` if smaller). Fails with
    /// `DimensionMismatch` exactly when the query has the wrong length; an
    /// empty collection yields an empty result.
    #[verifier::loop_isolation(false)]
    pub fn search(&self, query: &Vec<i32>, top_k: usize) -> (r: Result<Vec<SearchHit>, VectorDbError>)
        requires
            self.wf(),
        ensures
            match r {
                Ok(hits) => {
                    &&& query@.len() == self.dim
                    &&& search_hits_post(hits@, *self, query@, top_k as int)
                },
                Err(e) => {
                    &&& e == VectorDbError::DimensionMismatch
                    &&& query@.len() != self.dim
                },
            },
    {
        if query.len() != self.dim {
            return Err(VectorDbError::DimensionMismatch);
        }
        let cands = self.graph.search_knn(query, top_k, self.config.search_breadth);
        let mut hits: Vec<SearchHit> = Vec::new();
        let mut i: usize = 0;
        while i < cands.len()
            invariant
                i <= cands@.len(),
                hits@.len() == i,
                forall|t: int|
                    0 <= t < i ==> {
                        &&& (#[trigger] hits@[t]).id == self.records@[cands@[t].node as int].id
                        &&& hits@[t].distance == cands@[t].dist
                    },
            decreases cands@.len() - i,
        {
            let c = cands[i];
            proof {
                assert(cands_valid(cands@, self.graph.metric, query@, self.graph.vectors@));
            }
            hits.push(SearchHit { id: self.records[c.node].id, distance: c.dist });
            i = i + 1;
        }
        proof {
            let g = cands@;
            let idxs = nodes_of(g).map_values(|u: usize| u as int);
            assert forall|t: int| 0 <= t < hits@.len() implies {
                &&& 0 <= (#[trigger] idxs[t]) < self.records@.len()
                &&& hits@[t].id == self.records@[idxs[t]].id
                &&& hits@[t].distance == dist_spec(
                    self.config.distance,
                    query@,
                    self.records@[idxs[t]].vector@,
                )
            } by {
                assert(idxs[t] == g[t].node as int);
                assert(g[t].dist == dist_spec(
                    self.graph.metric,
                    query@,
                    self.graph.vectors@[g[t].node as int]@,
                ));
                assert(self.records@[g[t].node as int].vector@ == self.graph.vectors@[g[t].node as int]@);
            }
            assert forall|a: int, b: int| 0 <= a < b < hits@.len() implies ((
            #[trigger] hits@[a]).dist_lt((#[trigger] hits@[b])) || (hits@[a].distance
                == hits@[b].distance && idxs[a] < idxs[b])) by {
                assert(cand_le(g[a], g[b]));
                assert(nodes_of(g)[a] == g[a].node);
                assert(nodes_of(g)[b] == g[b].node);
            }
            let ef = if self.config.search_breadth as int >= top_k as int {
                self.config.search_breadth as int
            } else {
                top_k as int
            };
            if ef >= self.records@.len() {
                assert forall|t: int, a: int|
                    0 <= t < self.records@.len() && !idxs.contains(t) && 0 <= a < hits@.len()
                    implies ((#[trigger] hits@[a]).distance < dist_spec(
                    self.config.distance,
                    query@,
                    (#[trigger] self.records@[t]).vector@,
                ) || (hits@[a].distance == dist_spec(
                    self.config.distance,
                    query@,
                    self.records@[t].vector@,
                ) && idxs[a] < t)) by {
                    assert(!nodes_of(g).contains(t as usize)) by {
                        if nodes_of(g).contains(t as usize) {
                            let u = choose|u: int|
                                0 <= u < nodes_of(g).len() && nodes_of(g)[u] == t as usize;
                            assert(idxs[u] == t);
                        }
                    }
                    assert(g[a].dist < dist_spec(
                        self.graph.metric,
                        query@,
                        self.graph.vectors@[t]@,
                    ) || (g[a].dist == dist_spec(self.graph.metric, query@, self.graph.vectors@[t]@)
                        && g[a].node < t));
                    assert(self.records@[t].vector@ == self.graph.vectors@[t]@);
                }
            }
            assert(search_hits_witness(hits@, *self, query@, top_k as int, idxs));
        }
        Ok(hits)
    }
}

} // verus!

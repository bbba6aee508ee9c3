//! The approximate nearest-neighbour index: a layered, navigable
//! small-world proximity graph over vector ids.
//!
//! Every inserted vector gets one node. A node drawn at top layer `t` has a
//! neighbour list for each layer `0..=t`; layer 0 holds every node, and the
//! per-layer degree is bounded by `max_neighbors` (doubled at layer 0, by
//! common convention). Insertion descends greedily from the entry point,
//! collects candidates per layer with a bounded best-first search, and links
//! bidirectionally to a diverse subset; search descends the same way and
//! runs the best-first search at layer 0.
//!
//! The search frontier is topped up from the id space whenever the graph
//! walk yields fewer candidates than the beam width, so a search always
//! returns exactly `min(top_k, node count)` results, and is exhaustive — the
//! true `k` nearest — whenever the beam width reaches the node count.

use vstd::prelude::*;
use vstd::seq_lib::*;
use vstd::set_lib::*;
use crate::errors::VectorDbError;
use crate::metric::{dist_spec, distance, Metric};

verus! {

/// Highest layer a node can be drawn at.
pub const TOP_LAYER_CAP: usize = 16;

/// An internal node id paired with its exact distance to some query.
#[derive(Clone, Copy, Debug)]
pub struct Candidate {
    pub node: usize,
    pub dist: u128,
}

/// One graph node: the layer it was inserted at, and one neighbour list per
/// layer `0..=top_layer`.
pub struct GraphNode {
    pub top_layer: usize,
    pub neighbors: Vec<Vec<usize>>,
}

/// The layered proximity graph for one collection.
pub struct ProximityGraph {
    /// Distance metric, fixed at creation.
    pub metric: Metric,
    /// Vector length, fixed at creation.
    pub dim: usize,
    /// Per-layer degree bound (doubled at layer 0).
    pub max_neighbors: usize,
    /// Beam width used while building the graph.
    pub search_breadth: usize,
    /// Hard capacity.
    pub max_elements: usize,
    /// Vector of node `i` is `vectors[i]`.
    pub vectors: Vec<Vec<i32>>,
    pub nodes: Vec<GraphNode>,
    /// The node at the highest layer; every walk starts here.
    pub entry_point: usize,
    /// The highest layer of any node, i.e. of the entry point.
    pub top_layer: usize,
    /// State of the deterministic generator that draws node layers.
    pub rng_state: u64,
}

/// `(distance, node id)` lexicographic order: ascending distance, ties
/// broken by the smaller id, for determinism.
pub open spec fn cand_le(x: Candidate, y: Candidate) -> bool {
    x.dist < y.dist || (x.dist == y.dist && x.node <= y.node)
}

/// Candidates in ascending `(distance, id)` order.
pub open spec fn sorted_by_dist(s: Seq<Candidate>) -> bool {
    forall|i: int, j: int| 0 <= i < j < s.len() ==> #[trigger] cand_le(s[i], s[j])
}

/// The node ids named by a candidate sequence, in order.
pub open spec fn nodes_of(s: Seq<Candidate>) -> Seq<usize> {
    s.map_values(|c: Candidate| c.node)
}

/// Every candidate names a stored vector and carries its exact distance
/// from `q` under `m`.
pub open spec fn cands_valid(s: Seq<Candidate>, m: Metric, q: Seq<i32>, vecs: Seq<Vec<i32>>) -> bool {
    forall|i: int|
        0 <= i < s.len() ==> {
            &&& (#[trigger] s[i]).node < vecs.len()
            &&& s[i].dist == dist_spec(m, q, vecs[s[i].node as int]@)
        }
}

/// No node outside the result beats any returned entry under the
/// `(distance, id)` order: the result is the true top `k`.
pub open spec fn complete_topk(r: Seq<Candidate>, m: Metric, q: Seq<i32>, vecs: Seq<Vec<i32>>) -> bool {
    forall|n: int, i: int|
        0 <= n < vecs.len() && !nodes_of(r).contains(n as usize) && 0 <= i < r.len()
            ==> ((#[trigger] r[i]).dist < dist_spec(m, q, (#[trigger] vecs[n])@)
                || (r[i].dist == dist_spec(m, q, vecs[n]@) && r[i].node < n))
}

/// Everything `search_knn` promises of a result for query `q`, requested
/// size `k` and effective beam width `ef`.
pub open spec fn search_post(
    r: Seq<Candidate>,
    m: Metric,
    q: Seq<i32>,
    vecs: Seq<Vec<i32>>,
    k: int,
    ef: int,
) -> bool {
    &&& r.len() == if k <= vecs.len() { k } else { vecs.len() as int }
    &&& cands_valid(r, m, q, vecs)
    &&& nodes_of(r).no_duplicates()
    &&& sorted_by_dist(r)
    &&& (ef >= vecs.len() ==> complete_topk(r, m, q, vecs))
}

impl ProximityGraph {
    pub open spec fn node_count(self) -> nat {
        self.nodes@.len()
    }

    /// Degree bound at a layer: doubled at the connectivity floor.
    pub open spec fn degree_bound(self, layer: int) -> int {
        if layer == 0 {
            2 * self.max_neighbors
        } else {
            self.max_neighbors as int
        }
    }

    /// Every stored vector has the configured dimension.
    pub open spec fn vectors_wf(self) -> bool {
        forall|i: int|
            0 <= i < self.vectors@.len() ==> (#[trigger] self.vectors@[i])@.len() == self.dim
    }

    /// Well-formedness of one node's neighbour lists.
    pub open spec fn node_wf(self, i: int) -> bool {
        let nd = self.nodes@[i];
        &&& nd.top_layer <= TOP_LAYER_CAP
        &&& nd.neighbors@.len() == nd.top_layer + 1
        &&& forall|l: int|
            0 <= l < nd.neighbors@.len() ==> (#[trigger] nd.neighbors@[l])@.len()
                <= self.degree_bound(l)
        &&& forall|l: int|
            0 <= l < nd.neighbors@.len() ==> (#[trigger] nd.neighbors@[l])@.no_duplicates()
        &&& forall|l: int, j: int|
            0 <= l < nd.neighbors@.len() && 0 <= j < nd.neighbors@[l]@.len() ==> {
                &&& (#[trigger] nd.neighbors@[l]@[j]) < self.nodes@.len()
                &&& self.nodes@[nd.neighbors@[l]@[j] as int].top_layer >= l
            }
    }

    /// The graph invariant: configuration is usable, every vector has the
    /// right dimension, every node's lists are bounded and point at live
    /// nodes of a high enough layer, and the entry point sits at the
    /// current top layer.
    pub open spec fn wf(self) -> bool {
        &&& 1 <= self.max_neighbors
        &&& 2 * self.max_neighbors <= usize::MAX
        &&& 1 <= self.search_breadth
        &&& 1 <= self.dim
        &&& self.vectors@.len() == self.nodes@.len()
        &&& self.nodes@.len() <= self.max_elements
        &&& self.vectors_wf()
        &&& forall|i: int| 0 <= i < self.nodes@.len() ==> #[trigger] self.node_wf(i)
        &&& self.nodes@.len() > 0 ==> {
            &&& self.entry_point < self.nodes@.len()
            &&& self.top_layer == self.nodes@[self.entry_point as int].top_layer
            &&& forall|i: int|
                0 <= i < self.nodes@.len() ==> (#[trigger] self.nodes@[i]).top_layer
                    <= self.top_layer
        }
    }

    /// The fields fixed at creation.
    pub open spec fn same_config(self, other: ProximityGraph) -> bool {
        &&& self.metric == other.metric
        &&& self.dim == other.dim
        &&& self.max_neighbors == other.max_neighbors
        &&& self.search_breadth == other.search_breadth
        &&& self.max_elements == other.max_elements
    }
}

/// A sequence of distinct ids below `n` has at most `n` entries.
pub proof fn lemma_distinct_ids_len(s: Seq<usize>, n: int)
    requires
        s.no_duplicates(),
        n >= 0,
        forall|i: int| 0 <= i < s.len() ==> (#[trigger] s[i]) < n,
    ensures
        s.len() <= n,
{
    let t = s.map_values(|x: usize| x as int);
    assert(t.no_duplicates()) by {
        assert forall|i: int, j: int| 0 <= i < t.len() && 0 <= j < t.len() && i != j
            implies t[i] != t[j] by {
            assert(s[i] != s[j]);
        }
    }
    t.unique_seq_to_set();
    assert(t.to_set().subset_of(set_int_range(0, n))) by {
        assert forall|x: int| t.to_set().contains(x) implies set_int_range(0, n).contains(x) by {
            let i = choose|i: int| 0 <= i < t.len() && t[i] == x;
            assert(s[i] < n);
        }
    }
    lemma_int_range(0, n);
    lemma_len_subset(t.to_set(), set_int_range(0, n));
}

/// A sequence of distinct ids below `n` that misses some id below `n` has
/// at most `n - 1` entries.
pub proof fn lemma_distinct_ids_missing_len(s: Seq<usize>, n: int, missing: usize)
    requires
        s.no_duplicates(),
        n >= 1,
        forall|i: int| 0 <= i < s.len() ==> (#[trigger] s[i]) < n,
        missing < n,
        !s.contains(missing),
    ensures
        s.len() <= n - 1,
{
    let t = s.map_values(|x: usize| x as int);
    assert(t.no_duplicates()) by {
        assert forall|i: int, j: int| 0 <= i < t.len() && 0 <= j < t.len() && i != j
            implies t[i] != t[j] by {
            assert(s[i] != s[j]);
        }
    }
    t.unique_seq_to_set();
    let small = set_int_range(0, n).remove(missing as int);
    assert(t.to_set().subset_of(small)) by {
        assert forall|x: int| t.to_set().contains(x) implies small.contains(x) by {
            let i = choose|i: int| 0 <= i < t.len() && t[i] == x;
            assert(s[i] < n);
            assert(s[i] != missing);
        }
    }
    lemma_int_range(0, n);
    assert(small.len() == n - 1);
    lemma_len_subset(t.to_set(), small);
}

/// A sequence of distinct ids that contains every id below `n` has at least
/// `n` entries.
pub proof fn lemma_all_ids_len(s: Seq<usize>, n: int)
    requires
        s.no_duplicates(),
        0 <= n <= usize::MAX,
        forall|id: usize| 0 <= id < n ==> s.contains(id),
    ensures
        s.len() >= n,
{
    let t = s.map_values(|v: usize| v as int);
    assert(t.no_duplicates()) by {
        assert forall|i: int, j: int| 0 <= i < t.len() && 0 <= j < t.len() && i != j
            implies t[i] != t[j] by {
            assert(s[i] != s[j]);
        }
    }
    t.unique_seq_to_set();
    assert(set_int_range(0, n).subset_of(t.to_set())) by {
        assert forall|x: int| set_int_range(0, n).contains(x) implies t.to_set().contains(x) by {
            let id = x as usize;
            assert(id as int == x);
            assert(s.contains(id));
            let i = choose|i: int| 0 <= i < s.len() && s[i] == id;
            assert(t[i] == s[i] as int);
            assert(t[i] == x);
        }
    }
    lemma_int_range(0, n);
    lemma_len_subset(set_int_range(0, n), t.to_set());
}

/// Permuting valid candidates preserves validity and id-distinctness: a
/// candidate's distance is a function of its node, so distinct ids are
/// exactly distinct values.
pub proof fn lemma_permuted_cands(
    a: Seq<Candidate>,
    b: Seq<Candidate>,
    m: Metric,
    q: Seq<i32>,
    vecs: Seq<Vec<i32>>,
)
    requires
        a.to_multiset() == b.to_multiset(),
        cands_valid(a, m, q, vecs),
        nodes_of(a).no_duplicates(),
    ensures
        cands_valid(b, m, q, vecs),
        nodes_of(b).no_duplicates(),
{
    a.to_multiset_ensures();
    b.to_multiset_ensures();
    assert forall|i: int| 0 <= i < b.len() implies (#[trigger] b[i]).node < vecs.len()
        && b[i].dist == dist_spec(m, q, vecs[b[i].node as int]@) by {
        assert(b.to_multiset().count(b[i]) > 0);
        assert(a.contains(b[i]));
        let j = choose|j: int| 0 <= j < a.len() && a[j] == b[i];
        assert(a[j].node < vecs.len());
    }
    assert(a.no_duplicates()) by {
        assert forall|i: int, j: int| 0 <= i < a.len() && 0 <= j < a.len() && i != j
            implies a[i] != a[j] by {
            assert(nodes_of(a)[i] == a[i].node);
            assert(nodes_of(a)[j] == a[j].node);
        }
    }
    a.lemma_multiset_has_no_duplicates();
    b.lemma_multiset_has_no_duplicates_conv();
    assert forall|i: int, j: int|
        0 <= i < nodes_of(b).len() && 0 <= j < nodes_of(b).len() && i != j
        implies nodes_of(b)[i] != nodes_of(b)[j] by {
        if b[i].node == b[j].node {
            assert(b[i].dist == dist_spec(m, q, vecs[b[i].node as int]@));
            assert(b[j].dist == dist_spec(m, q, vecs[b[j].node as int]@));
            assert(b[i] == b[j]);
        }
    }
}

/// The beam width actually used: the caller's `ef`, raised to `top_k` when
/// it is smaller, so a search can never return fewer than it should.
pub fn effective_breadth(ef: usize, top_k: usize) -> (r: usize)
    ensures
        r == if ef >= top_k { ef as int } else { top_k as int },
        r >= ef,
        r >= top_k,
{
    if ef >= top_k {
        ef
    } else {
        top_k
    }
}

/// Exec comparison under the `(distance, id)` order.
fn cand_before(x: &Candidate, y: &Candidate) -> (r: bool)
    ensures
        r == cand_le(*x, *y),
{
    x.dist < y.dist || (x.dist == y.dist && x.node <= y.node)
}

/// Does the candidate list already name this node?
fn cands_contain_node(cands: &Vec<Candidate>, id: usize) -> (r: bool)
    ensures
        r == nodes_of(cands@).contains(id),
{
    let mut i: usize = 0;
    while i < cands.len()
        invariant
            i <= cands@.len(),
            forall|j: int| 0 <= j < i ==> (#[trigger] cands@[j]).node != id,
        decreases cands@.len() - i,
    {
        if cands[i].node == id {
            proof {
                assert(nodes_of(cands@)[i as int] == id);
            }
            return true;
        }
        i = i + 1;
    }
    proof {
        assert forall|j: int| 0 <= j < nodes_of(cands@).len()
            implies nodes_of(cands@)[j] != id by {
            assert(cands@[j].node != id);
        }
    }
    false
}

/// Does the id list contain this id?
fn ids_contain(ids: &Vec<usize>, id: usize) -> (r: bool)
    ensures
        r == ids@.contains(id),
{
    let mut i: usize = 0;
    while i < ids.len()
        invariant
            i <= ids@.len(),
            forall|j: int| 0 <= j < i ==> (#[trigger] ids@[j]) != id,
        decreases ids@.len() - i,
    {
        if ids[i] == id {
            return true;
        }
        i = i + 1;
    }
    false
}

/// Selection sort into ascending `(distance, id)` order; the result is a
/// permutation of the input.
fn sort_candidates(input: Vec<Candidate>) -> (out: Vec<Candidate>)
    ensures
        sorted_by_dist(out@),
        out@.to_multiset() == input@.to_multiset(),
        out@.len() == input@.len(),
{
    let ghost orig = input@;
    let mut work = input;
    let mut out: Vec<Candidate> = Vec::new();
    proof {
        broadcast use vstd::multiset::group_multiset_axioms;

        out@.to_multiset_ensures();
        assert(out@.to_multiset() =~= vstd::multiset::Multiset::empty());
        assert(out@.to_multiset().add(work@.to_multiset()) =~= orig.to_multiset());
    }
    while work.len() > 0
        invariant
            sorted_by_dist(out@),
            out@.to_multiset().add(work@.to_multiset()) == orig.to_multiset(),
            out@.len() + work@.len() == orig.len(),
            forall|i: int, j: int|
                0 <= i < out@.len() && 0 <= j < work@.len() ==> #[trigger] cand_le(
                    out@[i],
                    work@[j],
                ),
        decreases work@.len(),
    {
        let mut mi: usize = 0;
        let mut ji: usize = 1;
        while ji < work.len()
            invariant
                mi < work@.len(),
                ji <= work@.len(),
                forall|t: int| 0 <= t < ji ==> #[trigger] cand_le(work@[mi as int], work@[t]),
            decreases work@.len() - ji,
        {
            let ghost mi_pre = mi as int;
            if cand_before(&work[ji], &work[mi]) {
                mi = ji;
            }
            proof {
                assert forall|t: int| 0 <= t < ji + 1 implies #[trigger] cand_le(
                    work@[mi as int],
                    work@[t],
                ) by {
                    if t < ji {
                        assert(cand_le(work@[mi_pre], work@[t]));
                    } else {
                        assert(cand_le(work@[mi_pre], work@[mi_pre]));
                    }
                }
            }
            ji = ji + 1;
        }
        let ghost wpre = work@;
        let ghost opre = out@;
        let x = work.remove(mi);
        out.push(x);
        proof {
            wpre.to_multiset_ensures();
            opre.to_multiset_ensures();
            assert(wpre.contains(x));
            assert(work@ == wpre.remove(mi as int));
            assert(work@.to_multiset() =~= wpre.to_multiset().remove(x));
            assert(out@.to_multiset() =~= opre.to_multiset().insert(x));
            assert(wpre.to_multiset().count(x) > 0);
            assert(out@.to_multiset().add(work@.to_multiset()) =~= opre.to_multiset().add(
                wpre.to_multiset(),
            ));
            assert forall|i: int, j: int|
                0 <= i < out@.len() && 0 <= j < work@.len() implies #[trigger] cand_le(
                out@[i],
                work@[j],
            ) by {
                assert(work@[j] == wpre[j] || work@[j] == wpre[j + 1]);
                if i < opre.len() {
                    assert(cand_le(opre[i], wpre[j]) && cand_le(opre[i], wpre[j + 1]));
                } else {
                    assert(out@[i] == x);
                    assert(cand_le(wpre[mi as int], wpre[j]) && cand_le(
                        wpre[mi as int],
                        wpre[j + 1],
                    ));
                }
            }
            assert forall|i: int, j: int| 0 <= i < j < out@.len() implies #[trigger] cand_le(
                out@[i],
                out@[j],
            ) by {
                if j < opre.len() {
                } else {
                    assert(out@[j] == x);
                    assert(cand_le(opre[i], wpre[mi as int]));
                }
            }
        }
    }
    proof {
        broadcast use vstd::multiset::group_multiset_axioms;

        work@.to_multiset_ensures();
        assert(work@.to_multiset() =~= vstd::multiset::Multiset::empty());
        assert(out@.to_multiset() =~= orig.to_multiset());
    }
    out
}

/// Every candidate names a live node whose top layer reaches `layer`.
pub open spec fn cands_in_layer(s: Seq<Candidate>, g: ProximityGraph, layer: int) -> bool {
    forall|i: int|
        0 <= i < s.len() ==> {
            &&& (#[trigger] s[i]).node < g.nodes@.len()
            &&& g.nodes@[s[i].node as int].top_layer >= layer
        }
}

/// Multiset-equal candidate sequences have the same members.
pub proof fn lemma_permuted_contains(a: Seq<Candidate>, b: Seq<Candidate>)
    requires
        a.to_multiset() == b.to_multiset(),
    ensures
        forall|c: Candidate| a.contains(c) <==> #[trigger] b.contains(c),
{
    a.to_multiset_ensures();
    b.to_multiset_ensures();
    assert forall|c: Candidate| a.contains(c) <==> #[trigger] b.contains(c) by {
        assert(a.contains(c) <==> a.to_multiset().count(c) > 0);
        assert(b.contains(c) <==> b.to_multiset().count(c) > 0);
    }
}

/// Permuting candidates preserves the per-layer membership property.
pub proof fn lemma_permuted_layer(a: Seq<Candidate>, b: Seq<Candidate>, g: ProximityGraph, layer: int)
    requires
        a.to_multiset() == b.to_multiset(),
        cands_in_layer(a, g, layer),
    ensures
        cands_in_layer(b, g, layer),
{
    a.to_multiset_ensures();
    b.to_multiset_ensures();
    assert forall|i: int| 0 <= i < b.len() implies (#[trigger] b[i]).node < g.nodes@.len()
        && g.nodes@[b[i].node as int].top_layer >= layer by {
        assert(b.to_multiset().count(b[i]) > 0);
        assert(a.contains(b[i]));
        let j = choose|j: int| 0 <= j < a.len() && a[j] == b[i];
        assert(a[j].node < g.nodes@.len());
    }
}

/// Appending a candidate appends its node id.
pub proof fn lemma_nodes_of_push(s: Seq<Candidate>, c: Candidate)
    ensures
        nodes_of(s.push(c)) =~= nodes_of(s).push(c.node),
{
    assert forall|i: int| 0 <= i < s.len() + 1 implies nodes_of(s.push(c))[i] == nodes_of(s).push(
        c.node,
    )[i] by {
        if i < s.len() {
            assert(s.push(c)[i] == s[i]);
        }
    }
}

/// Appending a fresh id keeps an id sequence duplicate-free.
pub proof fn lemma_push_distinct(s: Seq<usize>, x: usize)
    requires
        s.no_duplicates(),
        !s.contains(x),
    ensures
        s.push(x).no_duplicates(),
{
    assert forall|i: int, j: int|
        0 <= i < s.push(x).len() && 0 <= j < s.push(x).len() && i != j
        implies s.push(x)[i] != s.push(x)[j] by {
        if i < s.len() && j < s.len() {
        } else if i < s.len() {
            assert(s[i] != x);
        } else if j < s.len() {
            assert(s[j] != x);
        }
    }
}

/// One step of a splitmix-style generator: deterministic, uniform-looking.
fn next_rand(state: u64) -> (r: u64) {
    let z: u64 = #[verifier::truncate] ((state as u128 + 0x9E3779B97F4A7C15u128) as u64);
    let z: u64 = #[verifier::truncate] (((((z >> 30) ^ z) as u128) * 0xBF58476D1CE4E5B9u128) as u64);
    let z: u64 = #[verifier::truncate] (((((z >> 27) ^ z) as u128) * 0x94D049BB133111EBu128) as u64);
    (z >> 31) ^ z
}

/// Draws a node's top layer: one chance in `fanout` of climbing each step
/// (skip-list style level sampling), capped at `TOP_LAYER_CAP` so layers
/// stay sub-logarithmic in the graph size.
fn draw_level(state: u64, fanout: u64) -> (r: (u64, usize))
    requires
        fanout >= 1,
    ensures
        r.1 <= TOP_LAYER_CAP,
{
    let mut s = state;
    let mut level: usize = 0;
    let mut go = true;
    while go && level < TOP_LAYER_CAP
        invariant
            level <= TOP_LAYER_CAP,
            fanout >= 1,
        decreases TOP_LAYER_CAP - level + (if go { 1int } else { 0int }),
    {
        s = next_rand(s);
        if s % fanout == 0 {
            level = level + 1;
        } else {
            go = false;
        }
    }
    (s, level)
}

impl ProximityGraph {
    /// Single-path greedy walk at one layer: move to the neighbour closest
    /// to `q` until no neighbour improves.
    #[verifier::loop_isolation(false)]
    fn greedy_walk(&self, layer: usize, start: usize, q: &Vec<i32>) -> (ep: usize)
        requires
            self.wf(),
            q@.len() == self.dim,
            start < self.node_count(),
            layer <= self.nodes@[start as int].top_layer,
        ensures
            ep < self.node_count(),
            layer <= self.nodes@[ep as int].top_layer,
    {
        let mut cur = start;
        let mut cur_dist = distance(self.metric, q, &self.vectors[cur]);
        let mut fuel = self.nodes.len();
        while fuel > 0
            invariant
                cur < self.node_count(),
                layer <= self.nodes@[cur as int].top_layer,
            decreases fuel,
    {
            fuel = fuel - 1;
            proof {
                assert(self.node_wf(cur as int));
            }
            let mut best = cur;
            let mut best_dist = cur_dist;
            let mut j: usize = 0;
            while j < self.nodes[cur].neighbors[layer].len()
                invariant
                    best < self.node_count(),
                    layer <= self.nodes@[best as int].top_layer,
                    j <= self.nodes@[cur as int].neighbors@[layer as int]@.len(),
                decreases self.nodes@[cur as int].neighbors@[layer as int]@.len() - j,
            {
                let nb = self.nodes[cur].neighbors[layer][j];
                let d = distance(self.metric, q, &self.vectors[nb]);
                if d < best_dist {
                    best = nb;
                    best_dist = d;
                }
                j = j + 1;
            }
            if best_dist < cur_dist {
                cur = best;
                cur_dist = best_dist;
            } else {
                fuel = 0;
            }
        }
        cur
    }

    /// Bounded best-first search at one layer: repeatedly expand the
    /// unexpanded candidate closest to `q`, up to `breadth` expansions,
    /// collecting every node discovered with its exact distance.
    #[verifier::loop_isolation(false)]
    fn search_layer(&self, layer: usize, start: usize, q: &Vec<i32>, breadth: usize) -> (out: Vec<
        Candidate,
    >)
        requires
            self.wf(),
            q@.len() == self.dim,
            start < self.node_count(),
            layer <= self.nodes@[start as int].top_layer,
        ensures
            cands_valid(out@, self.metric, q@, self.vectors@),
            nodes_of(out@).no_duplicates(),
            cands_in_layer(out@, *self, layer as int),
            out@.len() >= 1,
    {
        let n = self.nodes.len();
        let mut visited: Vec<bool> = Vec::new();
        let mut i0: usize = 0;
        while i0 < n
            invariant
                i0 <= n,
                visited@.len() == i0,
                forall|t: int| 0 <= t < i0 ==> !(#[trigger] visited@[t]),
            decreases n - i0,
        {
            visited.push(false);
            i0 = i0 + 1;
        }
        let d0 = distance(self.metric, q, &self.vectors[start]);
        let c0 = Candidate { node: start, dist: d0 };
        let mut out: Vec<Candidate> = Vec::new();
        let mut frontier: Vec<Candidate> = Vec::new();
        out.push(c0);
        frontier.push(c0);
        visited[start] = true;
        proof {
            assert(nodes_of(out@) =~= Seq::empty().push(start));
            assert(nodes_of(out@)[0] == start);
            assert forall|id: int|
                0 <= id < n implies ((#[trigger] visited@[id]) <==> nodes_of(out@).contains(
                id as usize,
            )) by {
                if id != start {
                    if nodes_of(out@).contains(id as usize) {
                        let t = choose|t: int|
                            0 <= t < nodes_of(out@).len() && nodes_of(out@)[t] == id as usize;
                        assert(t == 0);
                    }
                }
            }
        }
        let mut expansions: usize = 0;
        while expansions < breadth && frontier.len() > 0
            invariant
                visited@.len() == n,
                expansions <= breadth,
                out@.len() >= 1,
                cands_valid(out@, self.metric, q@, self.vectors@),
                nodes_of(out@).no_duplicates(),
                cands_in_layer(out@, *self, layer as int),
                cands_valid(frontier@, self.metric, q@, self.vectors@),
                cands_in_layer(frontier@, *self, layer as int),
                forall|id: int|
                    0 <= id < n ==> ((#[trigger] visited@[id]) <==> nodes_of(out@).contains(
                        id as usize,
                    )),
            decreases breadth - expansions,
        {
            let mut mi: usize = 0;
            let mut ji: usize = 1;
            while ji < frontier.len()
                invariant
                    mi < frontier@.len(),
                    ji <= frontier@.len(),
                    forall|t: int|
                        0 <= t < ji ==> #[trigger] cand_le(frontier@[mi as int], frontier@[t]),
                decreases frontier@.len() - ji,
            {
                let ghost mi_pre = mi as int;
                if cand_before(&frontier[ji], &frontier[mi]) {
                    mi = ji;
                }
                proof {
                    assert forall|t: int| 0 <= t < ji + 1 implies #[trigger] cand_le(
                        frontier@[mi as int],
                        frontier@[t],
                    ) by {
                        if t < ji {
                            assert(cand_le(frontier@[mi_pre], frontier@[t]));
                        }
                    }
                }
                ji = ji + 1;
            }
            let ghost fpre = frontier@;
            let c = frontier.swap_remove(mi);
            expansions = expansions + 1;
            proof {
                assert(c == fpre[mi as int]);
                assert forall|t: int| 0 <= t < frontier@.len() implies fpre.contains(
                    #[trigger] frontier@[t],
                ) by {
                    if t == mi {
                        assert(frontier@[t] == fpre[fpre.len() - 1]);
                    } else {
                        assert(frontier@[t] == fpre[t]);
                    }
                }
                assert(self.node_wf(c.node as int));
            }
            let mut j: usize = 0;
            while j < self.nodes[c.node].neighbors[layer].len()
                invariant
                    visited@.len() == n,
                    out@.len() >= 1,
                    j <= self.nodes@[c.node as int].neighbors@[layer as int]@.len(),
                    c.node < self.node_count(),
                    layer <= self.nodes@[c.node as int].top_layer,
                    cands_valid(out@, self.metric, q@, self.vectors@),
                    nodes_of(out@).no_duplicates(),
                    cands_in_layer(out@, *self, layer as int),
                    cands_valid(frontier@, self.metric, q@, self.vectors@),
                    cands_in_layer(frontier@, *self, layer as int),
                    forall|id: int|
                        0 <= id < n ==> ((#[trigger] visited@[id]) <==> nodes_of(out@).contains(
                            id as usize,
                        )),
                decreases self.nodes@[c.node as int].neighbors@[layer as int]@.len() - j,
            {
                let nb = self.nodes[c.node].neighbors[layer][j];
                proof {
                    assert(self.node_wf(c.node as int));
                }
                if !visited[nb] {
                    visited[nb] = true;
                    let d = distance(self.metric, q, &self.vectors[nb]);
                    let cnd = Candidate { node: nb, dist: d };
                    let ghost opre = out@;
                    out.push(cnd);
                    frontier.push(cnd);
                    proof {
                        lemma_nodes_of_push(opre, cnd);
                        lemma_push_distinct(nodes_of(opre), nb);
                        assert(nodes_of(out@) =~= nodes_of(opre).push(nb));
                        assert forall|id: int|
                            0 <= id < n implies ((#[trigger] visited@[id]) <==> nodes_of(
                            out@,
                        ).contains(id as usize)) by {
                            if id == nb {
                                assert(nodes_of(out@)[nodes_of(out@).len() - 1] == nb);
                            } else {
                                if nodes_of(out@).contains(id as usize) {
                                    let t = choose|t: int|
                                        0 <= t < nodes_of(out@).len() && nodes_of(out@)[t]
                                            == id as usize;
                                    assert(t < nodes_of(opre).len());
                                    assert(nodes_of(opre)[t] == id as usize);
                                }
                                if nodes_of(opre).contains(id as usize) {
                                    let t = choose|t: int|
                                        0 <= t < nodes_of(opre).len() && nodes_of(opre)[t]
                                            == id as usize;
                                    assert(nodes_of(out@)[t] == id as usize);
                                }
                            }
                        }
                    }
                }
                j = j + 1;
            }
        }
        out
    }

    /// Fills the candidate list from the id space until it reaches the beam
    /// width (or holds every node), so a search can never come up short
    /// merely because pruning disconnected part of the graph.
    #[verifier::loop_isolation(false)]
    fn top_up(&self, cands: &mut Vec<Candidate>, q: &Vec<i32>, breadth: usize)
        requires
            self.wf(),
            q@.len() == self.dim,
            cands_valid(old(cands)@, self.metric, q@, self.vectors@),
            nodes_of(old(cands)@).no_duplicates(),
        ensures
            cands_valid(final(cands)@, self.metric, q@, self.vectors@),
            nodes_of(final(cands)@).no_duplicates(),
            final(cands)@.len() <= self.node_count(),
            final(cands)@.len() >= if breadth <= self.node_count() {
                breadth as int
            } else {
                self.node_count() as int
            },
            breadth >= self.node_count() ==> forall|id: usize|
                id < self.node_count() ==> nodes_of(final(cands)@).contains(id),
    {
        let n = self.nodes.len();
        let mut id: usize = 0;
        while id < n
            invariant
                id <= n,
                cands_valid(cands@, self.metric, q@, self.vectors@),
                nodes_of(cands@).no_duplicates(),
                cands@.len() < breadth ==> forall|j: usize|
                    j < id ==> nodes_of(cands@).contains(j),
                breadth >= n ==> forall|j: usize| j < id ==> nodes_of(cands@).contains(j),
            decreases n - id,
        {
            let present = cands_contain_node(cands, id);
            if !present && cands.len() < breadth {
                let d = distance(self.metric, q, &self.vectors[id]);
                let ghost cpre = cands@;
                cands.push(Candidate { node: id, dist: d });
                proof {
                    lemma_nodes_of_push(cpre, Candidate { node: id, dist: d });
                    lemma_push_distinct(nodes_of(cpre), id);
                    assert(nodes_of(cands@) =~= nodes_of(cpre).push(id));
                    assert(nodes_of(cands@)[nodes_of(cands@).len() - 1] == id);
                    assert forall|j: usize| j < id + 1 implies nodes_of(cands@).contains(j) by {
                        if j < id {
                            assert(nodes_of(cpre).contains(j));
                            let t = choose|t: int|
                                0 <= t < nodes_of(cpre).len() && nodes_of(cpre)[t] == j;
                            assert(nodes_of(cands@)[t] == j);
                        }
                    }
                }
            } else if !present {
                proof {
                    if breadth >= n {
                        lemma_distinct_ids_missing_len(nodes_of(cands@), n as int, id);
                        assert(false);
                    }
                }
            }
            id = id + 1;
        }
        proof {
            lemma_distinct_ids_len(nodes_of(cands@), n as int);
            if cands@.len() < breadth {
                lemma_all_ids_len(nodes_of(cands@), n as int);
            }
        }
    }

    /// Diversity-pruned neighbour selection: scanning nearest first, keep a
    /// candidate only if it is strictly closer to `v` than to every
    /// neighbour already kept; stop at `bound` entries. The nearest
    /// candidate is always kept.
    #[verifier::loop_isolation(false)]
    fn select_diverse(&self, v: &Vec<i32>, sorted: &Vec<Candidate>, bound: usize) -> (sel: Vec<
        usize,
    >)
        requires
            self.vectors_wf(),
            v@.len() == self.dim,
            cands_valid(sorted@, self.metric, v@, self.vectors@),
            nodes_of(sorted@).no_duplicates(),
            bound >= 1,
        ensures
            sel@.no_duplicates(),
            sel@.len() <= bound,
            forall|t: int| 0 <= t < sel@.len() ==> nodes_of(sorted@).contains(#[trigger] sel@[t]),
            forall|t: int| 0 <= t < sel@.len() ==> (#[trigger] sel@[t]) < self.vectors@.len(),
            sorted@.len() > 0 ==> sel@.len() >= 1,
    {
        let mut sel: Vec<usize> = Vec::new();
        let mut i: usize = 0;
        while i < sorted.len() && sel.len() < bound
            invariant
                i <= sorted@.len(),
                sel@.len() <= bound,
                sel@.no_duplicates(),
                forall|t: int|
                    0 <= t < sel@.len() ==> nodes_of(sorted@.take(i as int)).contains(
                        #[trigger] sel@[t],
                    ),
                forall|t: int| 0 <= t < sel@.len() ==> (#[trigger] sel@[t]) < self.vectors@.len(),
                i > 0 ==> sel@.len() >= 1,
            decreases sorted@.len() - i,
        {
            let c = sorted[i];
            let mut keep = true;
            let mut j: usize = 0;
            while j < sel.len()
                invariant
                    j <= sel@.len(),
                    sel@.len() == 0 ==> keep,
                decreases sel@.len() - j,
            {
                let d = distance(self.metric, &self.vectors[c.node], &self.vectors[sel[j]]);
                if d <= c.dist {
                    keep = false;
                }
                j = j + 1;
            }
            if keep {
                proof {
                    let ghost tk = nodes_of(sorted@.take(i as int));
                    assert forall|t: int| 0 <= t < sel@.len() implies (#[trigger] sel@[t])
                        != c.node by {
                        assert(tk.contains(sel@[t]));
                        let u = choose|u: int| 0 <= u < tk.len() && tk[u] == sel@[t];
                        assert(nodes_of(sorted@)[u] == sel@[t]);
                        assert(nodes_of(sorted@)[i as int] == c.node);
                    }
                    lemma_push_distinct(sel@, c.node);
                }
                let ghost spre = sel@;
                sel.push(c.node);
                proof {
                    let ghost tk = nodes_of(sorted@.take(i as int));
                    let ghost tk1 = nodes_of(sorted@.take(i as int + 1));
                    assert(tk1[i as int] == c.node);
                    assert forall|t: int| 0 <= t < sel@.len() implies tk1.contains(
                        #[trigger] sel@[t],
                    ) by {
                        if t < spre.len() {
                            assert(tk.contains(spre[t]));
                            let u = choose|u: int| 0 <= u < tk.len() && tk[u] == spre[t];
                            assert(tk1[u] == spre[t]);
                        }
                    }
                }
            } else {
                proof {
                    let ghost tk = nodes_of(sorted@.take(i as int));
                    let ghost tk1 = nodes_of(sorted@.take(i as int + 1));
                    assert forall|t: int| 0 <= t < sel@.len() implies tk1.contains(
                        #[trigger] sel@[t],
                    ) by {
                        assert(tk.contains(sel@[t]));
                        let u = choose|u: int| 0 <= u < tk.len() && tk[u] == sel@[t];
                        assert(tk1[u] == sel@[t]);
                    }
                }
            }
            i = i + 1;
        }
        proof {
            assert forall|t: int| 0 <= t < sel@.len() implies nodes_of(sorted@).contains(
                #[trigger] sel@[t],
            ) by {
                let u = choose|u: int|
                    0 <= u < nodes_of(sorted@.take(i as int)).len() && nodes_of(
                        sorted@.take(i as int),
                    )[u] == sel@[t];
                assert(nodes_of(sorted@)[u] == sel@[t]);
            }
        }
        sel
    }

    /// Links `from -> to` at one layer, then prunes `from`'s list back to
    /// the degree bound with the same diversity heuristic if it overflowed.
    #[verifier::loop_isolation(false)]
    fn add_link(&mut self, from: usize, layer: usize, to: usize)
        requires
            old(self).wf(),
            from < old(self).node_count(),
            to < old(self).node_count(),
            from != to,
            layer <= old(self).nodes@[from as int].top_layer,
            layer <= old(self).nodes@[to as int].top_layer,
        ensures
            final(self).wf(),
            final(self).same_config(*old(self)),
            final(self).vectors@ == old(self).vectors@,
            final(self).nodes@.len() == old(self).nodes@.len(),
            final(self).entry_point == old(self).entry_point,
            final(self).top_layer == old(self).top_layer,
            final(self).rng_state == old(self).rng_state,
            forall|i: int|
                0 <= i < final(self).nodes@.len() && i != from ==> final(self).nodes@[i] == old(
                    self,
                ).nodes@[i],
            final(self).nodes@[from as int].top_layer == old(self).nodes@[from as int].top_layer,
            final(self).nodes@[from as int].neighbors@.len() == old(
                self,
            ).nodes@[from as int].neighbors@.len(),
    {
        proof {
            assert(old(self).node_wf(from as int));
            assert(old(self).node_wf(to as int));
        }
        let bound: usize = if layer == 0 {
            2 * self.max_neighbors
        } else {
            self.max_neighbors
        };
        if ids_contain(&self.nodes[from].neighbors[layer], to) {
            return ;
        }
        let ghost oldlist = self.nodes@[from as int].neighbors@[layer as int]@;
        self.nodes[from].neighbors[layer].push(to);
        proof {
            lemma_push_distinct(oldlist, to);
        }
        if self.nodes[from].neighbors[layer].len() > bound {
            let ghost list0 = self.nodes@[from as int].neighbors@[layer as int]@;
            let center = self.vectors[from].clone();
            let list = self.nodes[from].neighbors[layer].clone();
            proof {
                assert(list@ =~= list0);
            }
            let mut cands: Vec<Candidate> = Vec::new();
            let mut i: usize = 0;
            while i < list.len()
                invariant
                    i <= list@.len(),
                    cands@.len() == i,
                    center@.len() == self.dim,
                    forall|t: int|
                        0 <= t < i ==> (#[trigger] cands@[t]).node == list@[t] && cands@[t].dist
                            == dist_spec(self.metric, center@, self.vectors@[list@[t] as int]@),
                decreases list@.len() - i,
            {
                let nb = list[i];
                let d = distance(self.metric, &center, &self.vectors[nb]);
                cands.push(Candidate { node: nb, dist: d });
                i = i + 1;
            }
            proof {
                assert(cands_valid(cands@, self.metric, center@, self.vectors@));
                assert(nodes_of(cands@) =~= list@);
                assert(cands_in_layer(cands@, *self, layer as int));
            }
            let sorted = sort_candidates(cands);
            proof {
                lemma_permuted_cands(
                    cands@,
                    sorted@,
                    self.metric,
                    center@,
                    self.vectors@,
                );
                lemma_permuted_layer(cands@, sorted@, *self, layer as int);
            }
            let sel = self.select_diverse(&center, &sorted, bound);
            proof {
                assert forall|t: int| 0 <= t < sel@.len() implies {
                    &&& (#[trigger] sel@[t]) < self.nodes@.len()
                    &&& self.nodes@[sel@[t] as int].top_layer >= layer
                } by {
                    let u = choose|u: int|
                        0 <= u < nodes_of(sorted@).len() && nodes_of(sorted@)[u] == sel@[t];
                    assert(sorted@[u].node == sel@[t]);
                }
            }
            self.nodes[from].neighbors[layer] = sel;
        }
        proof {
            assert(self.nodes@[from as int].top_layer == old(self).nodes@[from as int].top_layer);
            assert forall|i: int| 0 <= i < self.nodes@.len() implies self.node_wf(i) by {
                assert(old(self).node_wf(i));
                if i != from {
                    assert(self.nodes@[i] == old(self).nodes@[i]);
                }
            }
        }
    }

    /// Inserts a vector, drawing a top layer, descending greedily, and
    /// linking bidirectionally to a diverse neighbour set at each layer
    /// from the entry layer down to 0. Fails with `CapacityExceeded`, and
    /// changes nothing, once `max_elements` vectors are stored.
    #[verifier::loop_isolation(false)]
    pub fn insert(&mut self, v: Vec<i32>) -> (r: Result<usize, VectorDbError>)
        requires
            old(self).wf(),
            v@.len() == old(self).dim,
        ensures
            final(self).wf(),
            final(self).same_config(*old(self)),
            match r {
                Ok(id) => {
                    &&& old(self).node_count() < old(self).max_elements
                    &&& id == old(self).node_count()
                    &&& final(self).node_count() == old(self).node_count() + 1
                    &&& final(self).vectors@ == old(self).vectors@.push(v)
                },
                Err(e) => {
                    &&& e == VectorDbError::CapacityExceeded
                    &&& old(self).node_count() >= old(self).max_elements
                    &&& *final(self) == *old(self)
                },
            },
    {
        if self.nodes.len() >= self.max_elements {
            return Err(VectorDbError::CapacityExceeded);
        }
        let new_id = self.nodes.len();
        let drawn = draw_level(self.rng_state, self.max_neighbors as u64);
        self.rng_state = drawn.0;
        let level = drawn.1;
        proof {
            assert forall|i: int| 0 <= i < self.nodes@.len() implies #[trigger] self.node_wf(
                i,
            ) by {
                assert(old(self).node_wf(i));
            }
            assert(self.wf());
        }
        if new_id == 0 {
            let mut layers: Vec<Vec<usize>> = Vec::new();
            let mut l: usize = 0;
            while l <= level
                invariant
                    l <= level + 1,
                    layers@.len() == l,
                    forall|t: int| 0 <= t < l ==> (#[trigger] layers@[t])@.len() == 0,
                decreases level + 1 - l,
            {
                layers.push(Vec::new());
                l = l + 1;
            }
            self.vectors.push(v);
            self.nodes.push(GraphNode { top_layer: level, neighbors: layers });
            self.entry_point = 0;
            self.top_layer = level;
            proof {
                assert forall|i: int| 0 <= i < self.nodes@.len() implies self.node_wf(i) by {
                    assert(self.nodes@[i].neighbors@.len() == level + 1);
                }
            }
            return Ok(0);
        }
        // descend greedily through the layers above the drawn one
        let mut ep = self.entry_point;
        let mut lay = self.top_layer;
        while lay > level
            invariant
                ep < self.node_count(),
                lay <= self.nodes@[ep as int].top_layer,
            decreases lay,
        {
            ep = self.greedy_walk(lay, ep, &v);
            lay = lay - 1;
        }
        let m_low = lay;
        // collect one diverse neighbour list per layer, descending to 0
        let mut sels_desc: Vec<Vec<usize>> = Vec::new();
        let mut cur: usize = m_low;
        let mut done = false;
        while !done
            invariant
                cur <= m_low,
                m_low <= level,
                m_low <= self.top_layer,
                ep < self.node_count(),
                cur <= self.nodes@[ep as int].top_layer,
                sels_desc@.len() == (if done {
                    m_low + 1
                } else {
                    (m_low - cur) as int
                }),
                forall|t: int|
                    0 <= t < sels_desc@.len() ==> {
                        &&& (#[trigger] sels_desc@[t])@.no_duplicates()
                        &&& sels_desc@[t]@.len() <= self.degree_bound(m_low - t)
                        &&& forall|u: int|
                            0 <= u < sels_desc@[t]@.len() ==> {
                                &&& (#[trigger] sels_desc@[t]@[u]) < self.node_count()
                                &&& self.nodes@[sels_desc@[t]@[u] as int].top_layer >= m_low - t
                            }
                    },
            decreases (if done {
                0int
            } else {
                cur + 1
            }),
        {
            let bound: usize = if cur == 0 {
                2 * self.max_neighbors
            } else {
                self.max_neighbors
            };
            let cands = self.search_layer(cur, ep, &v, self.search_breadth);
            let sorted = sort_candidates(cands);
            proof {
                lemma_permuted_cands(cands@, sorted@, self.metric, v@, self.vectors@);
                lemma_permuted_layer(cands@, sorted@, *self, cur as int);
            }
            ep = sorted[0].node;
            let sel = self.select_diverse(&v, &sorted, bound);
            proof {
                assert forall|u: int| 0 <= u < sel@.len() implies {
                    &&& (#[trigger] sel@[u]) < self.node_count()
                    &&& self.nodes@[sel@[u] as int].top_layer >= cur
                } by {
                    let w = choose|w: int|
                        0 <= w < nodes_of(sorted@).len() && nodes_of(sorted@)[w] == sel@[u];
                    assert(sorted@[w].node == sel@[u]);
                }
            }
            sels_desc.push(sel);
            if cur == 0 {
                done = true;
            } else {
                cur = cur - 1;
            }
        }
        // assemble the new node's per-layer lists, ascending
        let mut new_layers: Vec<Vec<usize>> = Vec::new();
        let mut l2: usize = 0;
        while l2 <= level
            invariant
                l2 <= level + 1,
                new_layers@.len() == l2,
                sels_desc@.len() == (if l2 <= m_low {
                    m_low + 1 - l2
                } else {
                    0int
                }),
                forall|t: int|
                    0 <= t < sels_desc@.len() ==> {
                        &&& (#[trigger] sels_desc@[t])@.no_duplicates()
                        &&& sels_desc@[t]@.len() <= self.degree_bound(m_low - t)
                        &&& forall|u: int|
                            0 <= u < sels_desc@[t]@.len() ==> {
                                &&& (#[trigger] sels_desc@[t]@[u]) < self.node_count()
                                &&& self.nodes@[sels_desc@[t]@[u] as int].top_layer >= m_low - t
                            }
                    },
                forall|t: int|
                    0 <= t < l2 ==> {
                        &&& (#[trigger] new_layers@[t])@.no_duplicates()
                        &&& new_layers@[t]@.len() <= self.degree_bound(t)
                        &&& forall|u: int|
                            0 <= u < new_layers@[t]@.len() ==> {
                                &&& (#[trigger] new_layers@[t]@[u]) < self.node_count()
                                &&& self.nodes@[new_layers@[t]@[u] as int].top_layer >= t
                            }
                    },
            decreases level + 1 - l2,
        {
            if l2 <= m_low {
                let ghost spre = sels_desc@;
                let s = match sels_desc.pop() {
                    Some(s) => s,
                    None => Vec::new(),
                };
                proof {
                    assert(s == spre[spre.len() - 1]);
                    assert(m_low - (spre.len() - 1) == l2);
                }
                new_layers.push(s);
            } else {
                new_layers.push(Vec::new());
            }
            l2 = l2 + 1;
        }
        self.vectors.push(v);
        self.nodes.push(GraphNode { top_layer: level, neighbors: new_layers });
        if level > self.top_layer {
            self.entry_point = new_id;
            self.top_layer = level;
        }
        proof {
            assert forall|i: int| 0 <= i < self.nodes@.len() implies self.node_wf(i) by {
                if i < new_id {
                    assert(old(self).node_wf(i));
                    assert(self.nodes@[i] == old(self).nodes@[i]);
                } else {
                    assert(self.nodes@[i].neighbors@.len() == level + 1);
                }
            }
        }
        proof {
            assert forall|l: int, u: int|
                0 <= l < self.nodes@[new_id as int].neighbors@.len() && 0 <= u
                    < self.nodes@[new_id as int].neighbors@[l]@.len()
                implies (#[trigger] self.nodes@[new_id as int].neighbors@[l]@[u]) < new_id by {
            }
        }
        // link back from every selected neighbour
        let mut l3: usize = 0;
        while l3 <= m_low
            invariant
                l3 <= m_low + 1,
                self.wf(),
                self.same_config(*old(self)),
                self.vectors@ == old(self).vectors@.push(v),
                self.node_count() == old(self).node_count() + 1,
                new_id + 1 == self.node_count(),
                self.nodes@[new_id as int].top_layer == level,
                m_low <= level,
                forall|l: int, u: int|
                    0 <= l < self.nodes@[new_id as int].neighbors@.len() && 0 <= u
                        < self.nodes@[new_id as int].neighbors@[l]@.len() ==> (
                    #[trigger] self.nodes@[new_id as int].neighbors@[l]@[u]) < new_id,
            decreases m_low + 1 - l3,
        {
            proof {
                assert(self.node_wf(new_id as int));
            }
            let sel = self.nodes[new_id].neighbors[l3].clone();
            proof {
                assert(sel@ =~= self.nodes@[new_id as int].neighbors@[l3 as int]@);
            }
            let mut t: usize = 0;
            while t < sel.len()
                invariant
                    t <= sel@.len(),
                    self.wf(),
                    self.same_config(*old(self)),
                    self.vectors@ == old(self).vectors@.push(v),
                    self.node_count() == old(self).node_count() + 1,
                    new_id + 1 == self.node_count(),
                    self.nodes@[new_id as int].top_layer == level,
                    forall|u: int|
                        0 <= u < sel@.len() ==> {
                            &&& (#[trigger] sel@[u]) < new_id
                            &&& self.nodes@[sel@[u] as int].top_layer >= l3
                        },
                    forall|l: int, u: int|
                        0 <= l < self.nodes@[new_id as int].neighbors@.len() && 0 <= u
                            < self.nodes@[new_id as int].neighbors@[l]@.len() ==> (
                        #[trigger] self.nodes@[new_id as int].neighbors@[l]@[u]) < new_id,
                decreases sel@.len() - t,
            {
                let s = sel[t];
                self.add_link(s, l3, new_id);
                t = t + 1;
            }
            l3 = l3 + 1;
        }
        Ok(new_id)
    }

    /// Approximate `k`-nearest-neighbour search: greedy descent to layer 0,
    /// best-first search there with the effective beam width, then the
    /// candidates are topped up, sorted by `(distance, id)` and cut to
    /// `top_k`. Always returns exactly `min(top_k, node count)` results,
    /// and the true nearest ones whenever the beam width reaches the node
    /// count. An empty graph yields an empty result.
    #[verifier::loop_isolation(false)]
    pub fn search_knn(&self, q: &Vec<i32>, top_k: usize, ef: usize) -> (r: Vec<Candidate>)
        requires
            self.wf(),
            q@.len() == self.dim,
        ensures
            search_post(
                r@,
                self.metric,
                q@,
                self.vectors@,
                top_k as int,
                if ef >= top_k {
                    ef as int
                } else {
                    top_k as int
                },
            ),
    {
        let out: Vec<Candidate> = Vec::new();
        if self.nodes.len() == 0 || top_k == 0 {
            proof {
                assert(nodes_of(out@) =~= Seq::<usize>::empty());
            }
            return out;
        }
        let n = self.nodes.len();
        let ef_eff = effective_breadth(ef, top_k);
        let mut ep = self.entry_point;
        let mut lay = self.top_layer;
        while lay > 0
            invariant
                ep < self.node_count(),
                lay <= self.nodes@[ep as int].top_layer,
            decreases lay,
        {
            ep = self.greedy_walk(lay, ep, q);
            lay = lay - 1;
        }
        let mut cands = self.search_layer(0, ep, q, ef_eff);
        self.top_up(&mut cands, q, ef_eff);
        let ghost topped = cands@;
        let mut sorted = sort_candidates(cands);
        proof {
            lemma_permuted_cands(topped, sorted@, self.metric, q@, self.vectors@);
            lemma_permuted_contains(topped, sorted@);
            assert forall|id: usize|
                nodes_of(topped).contains(id) implies nodes_of(sorted@).contains(id) by {
                let t = choose|t: int| 0 <= t < topped.len() && nodes_of(topped)[t] == id;
                assert(topped.contains(topped[t]));
                assert(sorted@.contains(topped[t]));
                let u = choose|u: int| 0 <= u < sorted@.len() && sorted@[u] == topped[t];
                assert(nodes_of(sorted@)[u] == id);
            }
        }
        let ghost full = sorted@;
        while sorted.len() > top_k
            invariant
                sorted@ == full.take(sorted@.len() as int),
                sorted@.len() <= full.len(),
                sorted@.len() >= top_k || sorted@.len() == full.len(),
            decreases sorted@.len(),
        {
            proof {
                assert(full.take(sorted@.len() as int).drop_last() =~= full.take(
                    sorted@.len() - 1,
                ));
            }
            let _ = sorted.pop();
        }
        proof {
            assert(full.take(full.len() as int) =~= full);
            let res = sorted@;
            let k = top_k as int;
            // the result length is exactly min(top_k, node count)
            if k <= full.len() {
                assert(res.len() == k);
                assert(k <= n);
            } else {
                assert(res.len() == full.len());
                if (if ef_eff <= n {
                    ef_eff as int
                } else {
                    n as int
                }) == ef_eff as int {
                    assert(full.len() >= ef_eff >= k);
                    assert(false);
                }
                assert(full.len() == n);
            }
            // prefix of sorted distinct-id candidates keeps every property
            assert(sorted_by_dist(res));
            assert forall|i: int, j: int|
                0 <= i < res.len() && 0 <= j < res.len() && i != j implies nodes_of(res)[i]
                != nodes_of(res)[j] by {
                assert(nodes_of(full)[i] == full[i].node);
                assert(nodes_of(full)[j] == full[j].node);
            }
            // exhaustive when the beam width covers the graph
            if ef_eff >= n {
                assert forall|nd: int, i: int|
                    0 <= nd < self.vectors@.len() && !nodes_of(res).contains(nd as usize) && 0 <= i
                        < res.len() implies ((#[trigger] res[i]).dist < dist_spec(
                    self.metric,
                    q@,
                    (#[trigger] self.vectors@[nd])@,
                ) || (res[i].dist == dist_spec(self.metric, q@, self.vectors@[nd]@)
                    && res[i].node < nd)) by {
                    assert(nodes_of(topped).contains(nd as usize));
                    assert(nodes_of(full).contains(nd as usize));
                    let p = choose|p: int|
                        0 <= p < full.len() && nodes_of(full)[p] == nd as usize;
                    assert(full[p].node == nd as usize);
                    assert(full[p].dist == dist_spec(self.metric, q@, self.vectors@[nd]@));
                    if p < res.len() {
                        assert(nodes_of(res)[p] == nd as usize);
                        assert(false);
                    }
                    assert(cand_le(full[i], full[p]));
                    assert(res[i] == full[i]);
                    if res[i].dist == full[p].dist && res[i].node == full[p].node {
                        assert(nodes_of(res)[i] == nd as usize);
                        assert(false);
                    }
                }
            }
        }
        sorted
    }
}

} // verus!

//! The HNSW graph: a layered proximity graph for approximate
//! nearest-neighbour search.
//!
//! Every node carries its vector and one adjacency list per layer it
//! lives on.  The contracts promise what can be promised of an
//! approximate index: every returned id is a node of the graph, every
//! returned distance is exactly the configured metric applied to the
//! query and that node's vector, results come sorted by distance with
//! ties broken by id, and insertion and deletion keep the graph sound.

use vstd::prelude::*;
use crate::distance::{Distance, vec_ok, spec_distance, calculate_distance, DIM_LIMIT};
use crate::error::KeraDBError;
use crate::compression::CompressionMode;
use crate::jsonval::{Val, ValModel, val_model, val_models, lemma_val_models_len,
    lemma_val_models_index};
use crate::jsontext::spec_render;
use crate::outside::random_seed;
use crate::vectypes::{VectorConfig, VectorDocument};

verus! {

/// The maximum number of layers.
pub const MAX_LAYERS: usize = 16;

/// A node of the graph.
#[derive(Debug)]
pub struct HnswNode {
    pub id: u64,
    pub vector: Option<Vec<i64>>,
    pub text: Option<String>,
    pub neighbors: Vec<Vec<u64>>,
    pub layer: usize,
}

impl HnswNode {
    /// A fresh node with a vector and empty adjacency on every layer up
    /// to `layer`.
    pub fn new(id: u64, vector: Vec<i64>, layer: usize) -> (r: HnswNode)
        requires
            layer < MAX_LAYERS,
        ensures
            r.id == id,
            r.vector matches Option::Some(v) && v@ == vector@,
            r.layer == layer,
            r.neighbors@.len() == layer + 1,
            forall|i: int| 0 <= i <= layer ==> (#[trigger] r.neighbors@[i])@.len() == 0,
    {
        let mut neighbors: Vec<Vec<u64>> = Vec::new();
        let mut k: usize = 0;
        while k < layer + 1
            invariant
                layer < MAX_LAYERS,
                k <= layer + 1,
                neighbors@.len() == k,
                forall|i: int| 0 <= i < k ==> (#[trigger] neighbors@[i])@.len() == 0,
            decreases layer + 1 - k,
        {
            neighbors.push(Vec::new());
            k = k + 1;
        }
        HnswNode { id, vector: Option::Some(vector), text: Option::None, neighbors, layer }
    }

    /// A node carrying only text, for lazy embedding; such nodes do not
    /// take part in graph search.
    pub fn from_text(id: u64, text: String, layer: usize) -> (r: HnswNode)
        requires
            layer < MAX_LAYERS,
        ensures
            r.id == id,
            r.vector is None,
            r.layer == layer,
    {
        let mut neighbors: Vec<Vec<u64>> = Vec::new();
        let mut k: usize = 0;
        while k < layer + 1
            invariant
                layer < MAX_LAYERS,
                k <= layer + 1,
                neighbors@.len() == k,
            decreases layer + 1 - k,
        {
            neighbors.push(Vec::new());
            k = k + 1;
        }
        HnswNode { id, vector: Option::None, text: Option::Some(text), neighbors, layer }
    }

    /// The adjacency at a layer (empty past the node's top layer).
    pub fn get_neighbors(&self, layer: usize) -> (r: &[u64])
        ensures
            layer < self.neighbors@.len() ==> r@ == (self.neighbors@[layer as int])@,
            layer >= self.neighbors@.len() ==> r@.len() == 0,
    {
        if layer < self.neighbors.len() {
            self.neighbors[layer].as_slice()
        } else {
            let empty: &[u64] = &[];
            empty
        }
    }
}

/// The HNSW index.
pub struct HnswIndex {
    config: VectorConfig,
    nodes: Vec<HnswNode>,
    entry_point: Option<u64>,
    max_layer: usize,
    next_id: u64,
}

/// The node ids, in insertion order.
pub closed spec fn graph_ids(g: HnswIndex) -> Seq<u64> {
    Seq::new(g.nodes@.len(), |i: int| g.nodes@[i].id)
}

/// Whether the graph holds a node for `id`.
pub open spec fn graph_has(g: HnswIndex, id: u64) -> bool {
    exists|j: int| 0 <= j < graph_ids(g).len() && graph_ids(g)[j] == id
}

/// The vector of the node with the given id.
pub closed spec fn node_vec(g: HnswIndex, id: u64) -> Seq<i64> {
    if graph_has(g, id) {
        let j = choose|j: int| 0 <= j < graph_ids(g).len() && graph_ids(g)[j] == id;
        g.nodes@[j].vector->Some_0@
    } else {
        Seq::empty()
    }
}

/// The adjacency list of the node with the given id at a layer; empty
/// when the node or the layer does not exist.
pub closed spec fn node_neighbors(g: HnswIndex, id: u64, layer: int) -> Seq<u64> {
    if graph_has(g, id) {
        let j = choose|j: int| 0 <= j < graph_ids(g).len() && graph_ids(g)[j] == id;
        if 0 <= layer < g.nodes@[j].neighbors@.len() {
            (g.nodes@[j].neighbors@[layer])@
        } else {
            Seq::empty()
        }
    } else {
        Seq::empty()
    }
}

/// The source text of the node with the given id, if one is stored.
pub closed spec fn node_text(g: HnswIndex, id: u64) -> Option<Seq<char>> {
    if graph_has(g, id) {
        let j = choose|j: int| 0 <= j < graph_ids(g).len() && graph_ids(g)[j] == id;
        match g.nodes@[j].text {
            Option::Some(s) => Option::Some(s@),
            Option::None => Option::None,
        }
    } else {
        Option::None
    }
}

impl HnswIndex {
    /// The configuration of the graph.
    pub closed spec fn spec_config(self) -> VectorConfig {
        self.config
    }

    /// The next id to be assigned.
    pub closed spec fn spec_next_id(self) -> u64 {
        self.next_id
    }

    /// The configuration the graph was built with.
    pub fn config(&self) -> (r: &VectorConfig)
        ensures
            *r == self.spec_config(),
    {
        &self.config
    }

    /// The id counter, which every stored id sits below.
    pub fn next_id_value(&self) -> (r: u64)
        ensures
            r == self.spec_next_id(),
            self.wf() ==> r <= i64::MAX as u64,
    {
        self.next_id
    }

    /// The graph's invariant: ids unique and below the id counter, the
    /// counter small enough for persistence, every node a valid vector
    /// of the configured dimension with one adjacency list per layer,
    /// and an entry point exactly when the graph is not empty.
    pub closed spec fn wf(self) -> bool {
        &&& self.config.wf()
        &&& forall|i: int, j: int|
            0 <= i < j < self.nodes@.len() ==> (#[trigger] self.nodes@[i]).id != (
            #[trigger] self.nodes@[j]).id
        &&& forall|j: int|
            0 <= j < self.nodes@.len() ==> {
                let n = #[trigger] self.nodes@[j];
                &&& n.vector matches Option::Some(v) && vec_ok(v@) && v@.len()
                    == self.config.dimensions
                &&& n.layer < MAX_LAYERS
                &&& n.neighbors@.len() == n.layer + 1
                &&& n.id < self.next_id
            }
        &&& self.next_id <= i64::MAX as u64
        &&& (match self.entry_point {
            Option::Some(e) => graph_has(self, e),
            Option::None => self.nodes@.len() == 0,
        })
        &&& self.max_layer < MAX_LAYERS
    }

    /// A fresh, empty graph.
    pub fn new(config: VectorConfig) -> (r: HnswIndex)
        requires
            config.wf(),
        ensures
            r.wf(),
            graph_ids(r).len() == 0,
            r.spec_config() == config,
            r.spec_next_id() == 0,
    {
        let r = HnswIndex {
            config,
            nodes: Vec::new(),
            entry_point: Option::None,
            max_layer: 0,
            next_id: 0,
        };
        proof {
            assert(graph_ids(r) =~= Seq::<u64>::empty());
        }
        r
    }

    /// The number of nodes.
    pub fn len(&self) -> (r: usize)
        ensures
            r == graph_ids(*self).len(),
    {
        self.nodes.len()
    }

    /// Whether the graph is empty.
    pub fn is_empty(&self) -> (r: bool)
        ensures
            r == (graph_ids(*self).len() == 0),
    {
        self.nodes.len() == 0
    }

    fn find_node(&self, id: u64) -> (r: Option<usize>)
        ensures
            match r {
                Option::Some(j) => j < self.nodes@.len() && self.nodes@[j as int].id == id
                    && graph_has(*self, id),
                Option::None => !graph_has(*self, id),
            },
    {
        let mut k: usize = 0;
        while k < self.nodes.len()
            invariant
                k <= self.nodes@.len(),
                forall|j: int| 0 <= j < k ==> (#[trigger] self.nodes@[j]).id != id,
            decreases self.nodes@.len() - k,
        {
            if self.nodes[k].id == id {
                proof {
                    assert(graph_ids(*self)[k as int] == id);
                }
                return Option::Some(k);
            }
            k = k + 1;
        }
        proof {
            assert forall|j: int| 0 <= j < graph_ids(*self).len() implies graph_ids(
                *self,
            )[j] != id by {
                assert(graph_ids(*self)[j] == self.nodes@[j].id);
            }
        }
        Option::None
    }

    /// Under well-formedness, the node found at an index owns the
    /// vector `node_vec` names.
    proof fn lemma_node_vec(self, j: int)
        requires
            self.wf(),
            0 <= j < self.nodes@.len(),
        ensures
            node_vec(self, self.nodes@[j].id) == self.nodes@[j].vector->Some_0@,
            vec_ok(node_vec(self, self.nodes@[j].id)),
            node_vec(self, self.nodes@[j].id).len() == self.spec_config().dimensions,
            node_text(self, self.nodes@[j].id) == (match self.nodes@[j].text {
                Option::Some(s) => Option::Some(s@),
                Option::None => Option::None::<Seq<char>>,
            }),
    {
        let id = self.nodes@[j].id;
        assert(graph_ids(self)[j] == id);
        let j2 = choose|j2: int|
            0 <= j2 < graph_ids(self).len() && graph_ids(self)[j2] == id;
        assert(graph_ids(self)[j2] == self.nodes@[j2].id);
        if j2 != j {
            if j2 < j {
                assert(self.nodes@[j2].id != self.nodes@[j].id);
            } else {
                assert(self.nodes@[j].id != self.nodes@[j2].id);
            }
        }
    }

    /// The distance from a query to a stored node.
    fn dist_to(&self, query: &Vec<i64>, idx: usize) -> (r: i64)
        requires
            self.wf(),
            vec_ok(query@),
            query@.len() == self.spec_config().dimensions,
            idx < self.nodes@.len(),
        ensures
            r == spec_distance(
                query@,
                node_vec(*self, self.nodes@[idx as int].id),
                self.spec_config().distance,
            ),
    {
        proof {
            self.lemma_node_vec(idx as int);
        }
        let node = &self.nodes[idx];
        match &node.vector {
            Option::Some(v) => calculate_distance(query, v, self.config.distance),
            Option::None => {
                proof {
                    assert(false);
                }
                0
            },
        }
    }

    /// A random layer for a fresh node: geometric with success
    /// probability one over the configured degree, capped below the
    /// layer limit.
    fn random_layer(&self) -> (r: usize)
        requires
            self.spec_config().m >= 2,
        ensures
            r < MAX_LAYERS,
    {
        let m64 = self.config.m as u64;
        let mut layer: usize = 0;
        while layer < MAX_LAYERS - 1
            invariant
                layer < MAX_LAYERS,
                m64 >= 2,
            decreases MAX_LAYERS - 1 - layer,
        {
            let draw = random_seed();
            if draw % m64 == 0 {
                layer = layer + 1;
            } else {
                return layer;
            }
        }
        layer
    }
}


/// Whether every result pair carries a graph id and its exact distance
/// to the query under the graph's metric.
pub open spec fn results_ok(g: HnswIndex, query: Seq<i64>, rs: Seq<(u64, i64)>) -> bool {
    forall|i: int|
        0 <= i < rs.len() ==> graph_has(g, (#[trigger] rs[i]).0) && rs[i].1
            == spec_distance(query, node_vec(g, rs[i].0), g.spec_config().distance)
}

/// Whether results are sorted by distance, ties broken by ascending id.
pub open spec fn results_sorted(rs: Seq<(u64, i64)>) -> bool {
    forall|i: int, j: int|
        0 <= i < j < rs.len() ==> ((#[trigger] rs[i]).1 < (#[trigger] rs[j]).1 || (
        rs[i].1 == rs[j].1 && rs[i].0 <= rs[j].0))
}

/// Whether no id repeats.
pub open spec fn results_distinct(rs: Seq<(u64, i64)>) -> bool {
    forall|i: int, j: int|
        0 <= i < j < rs.len() ==> (#[trigger] rs[i]).0 != (#[trigger] rs[j]).0
}

fn results_contain(rs: &Vec<(u64, i64)>, x: u64) -> (r: bool)
    ensures
        r == (exists|i: int| 0 <= i < rs@.len() && (#[trigger] rs@[i]).0 == x),
{
    let mut k: usize = 0;
    while k < rs.len()
        invariant
            k <= rs@.len(),
            forall|i: int| 0 <= i < k ==> (#[trigger] rs@[i]).0 != x,
        decreases rs@.len() - k,
    {
        if rs[k].0 == x {
            return true;
        }
        k = k + 1;
    }
    false
}

fn vec_contains(v: &Vec<u64>, x: u64) -> (r: bool)
    ensures
        r == (exists|i: int| 0 <= i < v@.len() && v@[i] == x),
{
    let mut k: usize = 0;
    while k < v.len()
        invariant
            k <= v@.len(),
            forall|i: int| 0 <= i < k ==> v@[i] != x,
        decreases v@.len() - k,
    {
        if v[k] == x {
            return true;
        }
        k = k + 1;
    }
    false
}

impl HnswIndex {
    /// Greedy descent at one layer: repeatedly steps to the single best
    /// neighbour until no neighbour improves, returning a graph node.
    fn search_layer_single(&self, query: &Vec<i64>, entry: u64, layer: usize) -> (r: u64)
        requires
            self.wf(),
            vec_ok(query@),
            query@.len() == self.spec_config().dimensions,
            graph_has(*self, entry),
        ensures
            graph_has(*self, r),
    {
        let mut current = entry;
        let eidx = match self.find_node(entry) {
            Option::Some(i) => i,
            Option::None => {
                proof {
                    assert(false);
                }
                return entry;
            },
        };
        let mut current_idx = eidx;
        let mut current_dist = self.dist_to(query, current_idx);
        proof {
            self.lemma_node_vec(eidx as int);
            assert(graph_ids(*self)[eidx as int] == entry);
        }
        loop
            invariant
                self.wf(),
                vec_ok(query@),
                query@.len() == self.spec_config().dimensions,
                current_idx < self.nodes@.len(),
                self.nodes@[current_idx as int].id == current,
                graph_has(*self, current),
                current_dist == spec_distance(
                    query@,
                    node_vec(*self, current),
                    self.spec_config().distance,
                ),
            decreases current_dist - i64::MIN,
        {
            let mut best_idx = current_idx;
            let mut best_dist = current_dist;
            let mut changed = false;
            let node_layer_count = self.nodes[current_idx].neighbors.len();
            let mut t: usize = 0;
            let nn = if layer < node_layer_count {
                self.nodes[current_idx].neighbors[layer].len()
            } else {
                0
            };
            while t < nn
                invariant
                    self.wf(),
                    vec_ok(query@),
                    query@.len() == self.spec_config().dimensions,
                    current_idx < self.nodes@.len(),
                    self.nodes@[current_idx as int].id == current,
                    layer < node_layer_count ==> nn == (self.nodes@[current_idx as int]
                        .neighbors@[layer as int])@.len(),
                    layer >= node_layer_count ==> nn == 0,
                    node_layer_count == self.nodes@[current_idx as int].neighbors@.len(),
                    t <= nn,
                    best_idx < self.nodes@.len(),
                    best_dist == spec_distance(
                        query@,
                        node_vec(*self, self.nodes@[best_idx as int].id),
                        self.spec_config().distance,
                    ),
                    changed ==> best_dist < current_dist,
                    !changed ==> best_idx == current_idx && best_dist == current_dist,
                decreases nn - t,
            {
                let nid = self.nodes[current_idx].neighbors[layer][t];
                match self.find_node(nid) {
                    Option::Some(ni) => {
                        let d = self.dist_to(query, ni);
                        if d < best_dist {
                            best_idx = ni;
                            best_dist = d;
                            changed = true;
                        }
                    },
                    Option::None => {},
                }
                t = t + 1;
            }
            if !changed {
                proof {
                    assert(graph_ids(*self)[current_idx as int] == current);
                }
                return current;
            }
            current_idx = best_idx;
            current = self.nodes[best_idx].id;
            current_dist = best_dist;
            proof {
                assert(graph_ids(*self)[current_idx as int] == current);
                self.lemma_node_vec(current_idx as int);
            }
        }
    }

    /// Beam search at one layer: explores outward from the entry,
    /// keeping the `ef` closest candidates met, and returns them sorted
    /// by distance (ties by id).  Every returned pair is a graph node
    /// with its exact distance.
    fn search_layer(&self, query: &Vec<i64>, entry: u64, ef: usize, layer: usize) -> (r:
        Vec<(u64, i64)>)
        requires
            self.wf(),
            vec_ok(query@),
            query@.len() == self.spec_config().dimensions,
            graph_has(*self, entry),
            ef >= 1,
        ensures
            results_ok(*self, query@, r@),
            results_sorted(r@),
            results_distinct(r@),
            1 <= r@.len() <= ef,
    {
        let eidx = match self.find_node(entry) {
            Option::Some(i) => i,
            Option::None => {
                proof {
                    assert(false);
                }
                return Vec::new();
            },
        };
        let d0 = self.dist_to(query, eidx);
        proof {
            self.lemma_node_vec(eidx as int);
            assert(graph_ids(*self)[eidx as int] == entry);
        }
        let mut visited: Vec<u64> = Vec::new();
        visited.push(entry);
        let mut candidates: Vec<(u64, i64)> = Vec::new();
        candidates.push((entry, d0));
        let mut results: Vec<(u64, i64)> = Vec::new();
        results.push((entry, d0));
        // The walk is bounded: each expansion marks a fresh node
        // visited, and the graph is finite.
        let n64 = self.nodes.len() as u64;
        let mut budget: u64 = if n64 > 0x7fff_ffff_ffff_fffdu64 {
            0xffff_ffff_ffff_ffffu64
        } else {
            2 * n64 + 2
        };
        while candidates.len() > 0 && budget > 0
            invariant
                self.wf(),
                vec_ok(query@),
                query@.len() == self.spec_config().dimensions,
                ef >= 1,
                results_ok(*self, query@, results@),
                results_ok(*self, query@, candidates@),
                results_distinct(results@),
                1 <= results@.len() <= ef,
            decreases budget,
        {
            budget = budget - 1;
            // Pop the closest candidate.
            let mut mi: usize = 0;
            let mut t: usize = 1;
            while t < candidates.len()
                invariant
                    candidates@.len() > 0,
                    mi < candidates@.len(),
                    t <= candidates@.len(),
                decreases candidates@.len() - t,
            {
                if candidates[t].1 < candidates[mi].1 {
                    mi = t;
                }
                t = t + 1;
            }
            let cur = candidates[mi];
            candidates.remove(mi);
            proof {
                assert forall|i: int|
                    0 <= i < candidates@.len() implies graph_has(
                    *self,
                    (#[trigger] candidates@[i]).0,
                ) && candidates@[i].1 == spec_distance(
                    query@,
                    node_vec(*self, candidates@[i].0),
                    self.spec_config().distance,
                ) by {}
            }
            // The worst kept result.
            let mut wi: usize = 0;
            let mut w: usize = 1;
            while w < results.len()
                invariant
                    results@.len() > 0,
                    wi < results@.len(),
                    w <= results@.len(),
                decreases results@.len() - w,
            {
                if results[w].1 > results[wi].1 {
                    wi = w;
                }
                w = w + 1;
            }
            let worst_dist = results[wi].1;
            if cur.1 > worst_dist && results.len() >= ef {
                break;
            }
            // Expand the current candidate's neighbours.
            let cidx = match self.find_node(cur.0) {
                Option::Some(i) => i,
                Option::None => {
                    continue;
                },
            };
            let layer_count = self.nodes[cidx].neighbors.len();
            if layer >= layer_count {
                continue;
            }
            let nn = self.nodes[cidx].neighbors[layer].len();
            let mut q: usize = 0;
            while q < nn
                invariant
                    self.wf(),
                    vec_ok(query@),
                    query@.len() == self.spec_config().dimensions,
                    ef >= 1,
                    cidx < self.nodes@.len(),
                    layer < self.nodes@[cidx as int].neighbors@.len(),
                    nn == (self.nodes@[cidx as int].neighbors@[layer as int])@.len(),
                    q <= nn,
                    results_ok(*self, query@, results@),
                    results_ok(*self, query@, candidates@),
                    results_distinct(results@),
                    1 <= results@.len() <= ef,
                decreases nn - q,
            {
                let nid = self.nodes[cidx].neighbors[layer][q];
                if !vec_contains(&visited, nid) {
                    visited.push(nid);
                    match self.find_node(nid) {
                        Option::Some(ni) => {
                            let d = self.dist_to(query, ni);
                            proof {
                                self.lemma_node_vec(ni as int);
                                assert(graph_ids(*self)[ni as int] == nid);
                            }
                            // Keep it if there is room or it improves
                            // the worst kept result.
                            let mut worst2_i: usize = 0;
                            let mut w2: usize = 1;
                            while w2 < results.len()
                                invariant
                                    results@.len() > 0,
                                    worst2_i < results@.len(),
                                    w2 <= results@.len(),
                                decreases results@.len() - w2,
                            {
                                if results[w2].1 > results[worst2_i].1 {
                                    worst2_i = w2;
                                }
                                w2 = w2 + 1;
                            }
                            let room = results.len() < ef;
                            let improves = d < results[worst2_i].1;
                            if (room || improves) && !results_contain(&results, nid) {
                                candidates.push((nid, d));
                                let ghost pre_res = results@;
                                results.push((nid, d));
                                proof {
                                    assert forall|i: int, j: int|
                                        0 <= i < j < results@.len() implies (
                                    #[trigger] results@[i]).0 != (#[trigger] results@[
                                    j]).0 by {
                                        if j == results@.len() - 1 {
                                            assert(results@[i] == pre_res[i]);
                                        }
                                    }
                                }
                                if results.len() > ef {
                                    // Evict the worst.
                                    let mut worst3_i: usize = 0;
                                    let mut w3: usize = 1;
                                    while w3 < results.len()
                                        invariant
                                            results@.len() > 0,
                                            worst3_i < results@.len(),
                                            w3 <= results@.len(),
                                        decreases results@.len() - w3,
                                    {
                                        if results[w3].1 > results[worst3_i].1 {
                                            worst3_i = w3;
                                        }
                                        w3 = w3 + 1;
                                    }
                                    results.remove(worst3_i);
                                }
                            }
                        },
                        Option::None => {},
                    }
                }
                q = q + 1;
            }
        }
        // Sort ascending by distance, ties by id.
        let mut out: Vec<(u64, i64)> = Vec::new();
        let mut s: usize = 0;
        while s < results.len()
            invariant
                results_ok(*self, query@, results@),
                results_distinct(results@),
                s <= results@.len(),
                out@.len() == s,
                results_ok(*self, query@, out@),
                results_sorted(out@),
                results_distinct(out@),
                forall|i: int|
                    0 <= i < out@.len() ==> (exists|j: int|
                        0 <= j < s && results@[j] == #[trigger] out@[i]),
            decreases results@.len() - s,
        {
            let item = results[s];
            let mut pos: usize = 0;
            while pos < out.len() && (out[pos].1 < item.1 || (out[pos].1 == item.1
                && out[pos].0 <= item.0))
                invariant
                    pos <= out@.len(),
                    forall|i: int|
                        0 <= i < pos ==> ((#[trigger] out@[i]).1 < item.1 || (out@[i].1
                            == item.1 && out@[i].0 <= item.0)),
                decreases out@.len() - pos,
            {
                pos = pos + 1;
            }
            let ghost pre_out = out@;
            out.insert(pos, item);
            proof {
                assert forall|i: int, j: int|
                    0 <= i < j < out@.len() implies ((#[trigger] out@[i]).1 < (
                #[trigger] out@[j]).1 || (out@[i].1 == out@[j].1 && out@[i].0
                    <= out@[j].0)) by {
                    let i2: int = if i < pos {
                        i
                    } else {
                        i - 1
                    };
                    let j2: int = if j <= pos {
                        j
                    } else {
                        j - 1
                    };
                    if i == pos {
                        assert(out@[j] == pre_out[j - 1]);
                    } else if j == pos {
                        assert(out@[i] == pre_out[i]);
                    } else {
                        assert(out@[i] == pre_out[i2]);
                        assert(out@[j] == pre_out[j2]);
                    }
                }
                assert forall|i: int|
                    0 <= i < out@.len() implies (exists|j: int|
                    0 <= j < s + 1 && results@[j] == #[trigger] out@[i]) by {
                    if i == pos {
                        assert(results@[s as int] == out@[i]);
                    } else {
                        let i2: int = if i < pos {
                            i
                        } else {
                            i - 1
                        };
                        assert(out@[i] == pre_out[i2]);
                        let j = choose|j: int|
                            0 <= j < s && results@[j] == pre_out[i2];
                        assert(results@[j] == out@[i]);
                    }
                }
                assert forall|i: int, j: int|
                    0 <= i < j < out@.len() implies (#[trigger] out@[i]).0 != (
                #[trigger] out@[j]).0 by {
                    if i == pos || j == pos {
                        let o: int = if i == pos {
                            j
                        } else {
                            i
                        };
                        let o2: int = if o < pos {
                            o
                        } else {
                            o - 1
                        };
                        assert(out@[o] == pre_out[o2]);
                        let jw = choose|jw: int|
                            0 <= jw < s && results@[jw] == pre_out[o2];
                        assert(results@[jw].0 != results@[s as int].0);
                    } else {
                        let i2: int = if i < pos {
                            i
                        } else {
                            i - 1
                        };
                        let j2: int = if j < pos {
                            j
                        } else {
                            j - 1
                        };
                        assert(out@[i] == pre_out[i2]);
                        assert(out@[j] == pre_out[j2]);
                    }
                }
            }
            s = s + 1;
        }
        out
    }
}


/// Statistics about a graph.
#[derive(Debug)]
pub struct HnswStats {
    pub node_count: usize,
    pub max_layer: usize,
    pub total_connections: usize,
    pub dimensions: usize,
    pub m: usize,
    pub ef_construction: usize,
}

impl HnswIndex {
    /// Inserts a vector under a fresh id, wiring it into every layer up
    /// to its randomly drawn one.  Fails exactly when the vector does
    /// not fit the configuration (dimension or coordinate range) or the
    /// id counter is exhausted.
    pub fn insert(&mut self, vector: Vec<i64>) -> (r: Result<u64, KeraDBError>)
        requires
            old(self).wf(),
        ensures
            final(self).wf(),
            final(self).spec_config() == old(self).spec_config(),
            r is Ok <==> (vec_ok(vector@) && vector@.len()
                == old(self).spec_config().dimensions && old(self).spec_next_id()
                < i64::MAX as u64),
            match r {
                Result::Ok(id) => {
                    &&& id == old(self).spec_next_id()
                    &&& final(self).spec_next_id() == id + 1
                    &&& graph_ids(*final(self)) == graph_ids(*old(self)).push(id)
                    &&& node_vec(*final(self), id) == vector@
                    &&& node_text(*final(self), id) is None
                },
                Result::Err(e) => e is InvalidFormat && *final(self) == *old(self),
            },
    {
        self.insert_with_metadata(vector, Option::None)
    }

    /// As [`Self::insert`], also attaching the source text the vector
    /// came from.
    pub fn insert_with_metadata(&mut self, vector: Vec<i64>, text: Option<String>) -> (r:
        Result<u64, KeraDBError>)
        requires
            old(self).wf(),
        ensures
            final(self).wf(),
            final(self).spec_config() == old(self).spec_config(),
            r is Ok <==> (vec_ok(vector@) && vector@.len()
                == old(self).spec_config().dimensions && old(self).spec_next_id()
                < i64::MAX as u64),
            match r {
                Result::Ok(id) => {
                    &&& id == old(self).spec_next_id()
                    &&& final(self).spec_next_id() == id + 1
                    &&& graph_ids(*final(self)) == graph_ids(*old(self)).push(id)
                    &&& node_vec(*final(self), id) == vector@
                    &&& node_text(*final(self), id) == (match text {
                        Option::Some(s) => Option::Some(s@),
                        Option::None => Option::None::<Seq<char>>,
                    })
                },
                Result::Err(e) => e is InvalidFormat && *final(self) == *old(self),
            },
    {
        if vector.len() != self.config.dimensions {
            return Result::Err(
                KeraDBError::InvalidFormat("Vector dimension mismatch".to_owned()),
            );
        }
        if !crate::compression::vec_ok_exec(&vector) {
            return Result::Err(
                KeraDBError::InvalidFormat("Vector coordinate out of range".to_owned()),
            );
        }
        if self.next_id >= (i64::MAX as u64) {
            return Result::Err(
                KeraDBError::InvalidFormat("Vector id space exhausted".to_owned()),
            );
        }
        let id = self.next_id;
        let layer = self.random_layer();
        let ghost gvec = vector@;
        // The empty graph: the node becomes the entry point.
        if self.nodes.len() == 0 {
            let mut node = HnswNode::new(id, vector, layer);
            node.text = text;
            let ghost pre = *self;
            self.nodes.push(node);
            self.entry_point = Option::Some(id);
            self.max_layer = layer;
            self.next_id = id + 1;
            proof {
                assert(graph_ids(*self) =~= graph_ids(pre).push(id));
                assert(graph_ids(*self)[0] == id);
                Self::lemma_graph_push(pre, *self, id);
                assert(self.wf());
                self.lemma_node_vec(0);
            }
            return Result::Ok(id);
        }
        let entry_id = match self.entry_point {
            Option::Some(e) => e,
            Option::None => {
                proof {
                    assert(false);
                }
                return Result::Err(KeraDBError::InvalidFormat("no entry point".to_owned()));
            },
        };
        let current_max = self.max_layer;
        // Greedy descent through the layers above the node's layer.
        let mut current = entry_id;
        let mut lc = current_max;
        while lc > layer
            invariant
                self.wf(),
                vec_ok(vector@),
                vector@.len() == self.spec_config().dimensions,
                graph_has(*self, current),
                lc <= current_max,
            decreases lc,
        {
            current = self.search_layer_single(&vector, current, lc);
            lc = lc - 1;
        }
        // Collect the selected neighbours per layer, from the node's
        // layer (or the top) down to zero.
        let top = if layer < current_max {
            layer
        } else {
            current_max
        };
        let mut selected_per_layer: Vec<Vec<u64>> = Vec::new();
        let mut li0: usize = 0;
        while li0 <= top
            invariant
                self.wf(),
                vec_ok(vector@),
                vector@.len() == self.spec_config().dimensions,
                graph_has(*self, current),
                li0 <= top + 1,
                top < MAX_LAYERS,
                selected_per_layer@.len() == li0,
                forall|a: int|
                    0 <= a < selected_per_layer@.len() ==> (forall|b: int|
                        0 <= b < (#[trigger] selected_per_layer@[a])@.len()
                            ==> graph_has(*self, (selected_per_layer@[a])@[b])),
            decreases top + 1 - li0,
        {
            let lc2 = top - li0;
            let found = self.search_layer(&vector, current, self.config.ef_construction,
            lc2);
            let mut sel: Vec<u64> = Vec::new();
            let mut t: usize = 0;
            let take_n = if self.config.m < found.len() {
                self.config.m
            } else {
                found.len()
            };
            while t < take_n
                invariant
                    self.wf(),
                    results_ok(*self, vector@, found@),
                    take_n <= found@.len(),
                    t <= take_n,
                    sel@.len() == t,
                    forall|b: int| 0 <= b < t ==> graph_has(*self, #[trigger] sel@[b]),
                decreases take_n - t,
            {
                sel.push(found[t].0);
                t = t + 1;
            }
            if sel.len() > 0 {
                current = sel[0];
            }
            selected_per_layer.push(sel);
            li0 = li0 + 1;
        }
        // Build the node: its adjacency at layer lc is the list chosen
        // there (the lists were collected top-down).
        let mut node = HnswNode::new(id, vector, layer);
        node.text = text;
        let mut li: usize = 0;
        while li < selected_per_layer.len()
            invariant
                selected_per_layer@.len() == top + 1,
                top < MAX_LAYERS,
                node.neighbors@.len() == layer + 1,
                node.id == id,
                node.layer == layer,
                node.vector matches Option::Some(v) && v@ == gvec,
                node.text == text,
                top <= layer,
                li <= top + 1,
            decreases selected_per_layer@.len() - li,
        {
            let lc3 = top - li;
            let lst = selected_per_layer[li].clone();
            node.neighbors.set(lc3, lst);
            li = li + 1;
        }
        let ghost pre = *self;
        self.nodes.push(node);
        self.next_id = id + 1;
        proof {
            assert(graph_ids(*self) =~= graph_ids(pre).push(id));
            assert(graph_ids(*self)[graph_ids(*self).len() - 1] == id);
            Self::lemma_graph_push(pre, *self, id);
            assert forall|j: int| 0 <= j < self.nodes@.len() implies {
                let n = #[trigger] self.nodes@[j];
                &&& n.vector matches Option::Some(v) && vec_ok(v@) && v@.len()
                    == self.spec_config().dimensions
                &&& n.layer < MAX_LAYERS
                &&& n.neighbors@.len() == n.layer + 1
                &&& n.id < self.spec_next_id()
            } by {
                if j < self.nodes@.len() - 1 {
                    assert(self.nodes@[j] == pre.nodes@[j]);
                }
            }
            match self.entry_point {
                Option::Some(e) => {
                    let j = choose|j: int|
                        0 <= j < graph_ids(pre).len() && graph_ids(pre)[j] == e;
                    assert(graph_ids(*self)[j] == e);
                },
                Option::None => {},
            }
            assert(self.wf());
            self.lemma_node_vec(self.nodes@.len() - 1);
        }
        // Reciprocal edges: each selected neighbour gains an edge back,
        // pruned to the degree bound when it grows past twice the
        // target.
        let ghost after_push = *self;
        proof {
            assert(graph_has(after_push, id));
        }
        let mut li2: usize = 0;
        while li2 < selected_per_layer.len()
            invariant
                self.wf(),
                self.spec_config() == after_push.spec_config(),
                self.spec_next_id() == after_push.spec_next_id(),
                graph_ids(*self) == graph_ids(after_push),
                node_vec(*self, id) == gvec,
                node_text(*self, id) == node_text(after_push, id),
                selected_per_layer@.len() == top + 1,
                top < MAX_LAYERS,
            decreases selected_per_layer@.len() - li2,
        {
            let lc4 = top - li2;
            let count = selected_per_layer[li2].len();
            let mut t2: usize = 0;
            while t2 < count
                invariant
                    self.wf(),
                    self.spec_config() == after_push.spec_config(),
                    self.spec_next_id() == after_push.spec_next_id(),
                    graph_ids(*self) == graph_ids(after_push),
                    node_vec(*self, id) == gvec,
                    node_text(*self, id) == node_text(after_push, id),
                    count == (selected_per_layer@[li2 as int])@.len(),
                    li2 < selected_per_layer@.len(),
                    t2 <= count,
                    lc4 < MAX_LAYERS,
                decreases count - t2,
            {
                let nid = selected_per_layer[li2][t2];
                self.add_reverse_edge(nid, id, lc4);
                t2 = t2 + 1;
            }
            li2 = li2 + 1;
        }
        // A node above the old top becomes the new entry point.
        if layer > current_max {
            self.max_layer = layer;
            self.entry_point = Option::Some(id);
            proof {
                assert(graph_ids(*self) == graph_ids(after_push));
                let j = choose|j: int|
                    0 <= j < graph_ids(after_push).len() && graph_ids(after_push)[j] == id;
                assert(graph_ids(*self)[j] == id);
                assert(graph_has(*self, id));
            }
        }
        Result::Ok(id)
    }

    /// Adds the reverse edge `from → to` at a layer, pruning `from`'s
    /// adjacency to the `m` nearest when it exceeds twice the target
    /// degree.  Only adjacency lists change.
    fn add_reverse_edge(&mut self, from: u64, to: u64, layer: usize)
        requires
            old(self).wf(),
        ensures
            final(self).wf(),
            final(self).spec_config() == old(self).spec_config(),
            final(self).spec_next_id() == old(self).spec_next_id(),
            graph_ids(*final(self)) == graph_ids(*old(self)),
            forall|x: u64| #[trigger] node_vec(*final(self), x) == node_vec(*old(self), x),
            forall|x: u64| #[trigger] node_text(*final(self), x) == node_text(
                *old(self),
                x,
            ),
    {
        let fi = match self.find_node(from) {
            Option::Some(i) => i,
            Option::None => {
                return;
            },
        };
        if layer >= self.nodes[fi].neighbors.len() {
            return;
        }
        if vec_contains(&self.nodes[fi].neighbors[layer], to) {
            return;
        }
        let ghost pre = *self;
        let m = self.config.m;
        let base_vec = match &self.nodes[fi].vector {
            Option::Some(v) => vstd::slice::slice_to_vec(v.as_slice()),
            Option::None => {
                proof {
                    assert(false);
                }
                return;
            },
        };
        let mut lst = self.nodes[fi].neighbors[layer].clone();
        lst.push(to);
        if lst.len() > 2 * m {
            // Re-rank by true distance to the node and keep the m
            // closest.
            let mut kept: Vec<u64> = Vec::new();
            let mut used: Vec<bool> = Vec::new();
            let mut z: usize = 0;
            while z < lst.len()
                invariant
                    used@.len() == z,
                    z <= lst@.len(),
                decreases lst@.len() - z,
            {
                used.push(false);
                z = z + 1;
            }
            let mut round: usize = 0;
            while round < m
                invariant
                    self.wf(),
                    *self == pre,
                    vec_ok(base_vec@),
                    base_vec@.len() == self.spec_config().dimensions,
                    used@.len() == lst@.len(),
                    round <= m,
                    kept@.len() <= round,
                decreases m - round,
            {
                let mut best: Option<(usize, i64)> = Option::None;
                let mut y: usize = 0;
                while y < lst.len()
                    invariant
                        self.wf(),
                        *self == pre,
                        vec_ok(base_vec@),
                        base_vec@.len() == self.spec_config().dimensions,
                        used@.len() == lst@.len(),
                        y <= lst@.len(),
                        best matches Option::Some(p) ==> p.0 < lst@.len(),
                    decreases lst@.len() - y,
                {
                    if !used[y] {
                        match self.find_node(lst[y]) {
                            Option::Some(ni) => {
                                let d = self.dist_to(&base_vec, ni);
                                let better = match best {
                                    Option::Some(p) => d < p.1,
                                    Option::None => true,
                                };
                                if better {
                                    best = Option::Some((y, d));
                                }
                            },
                            Option::None => {},
                        }
                    }
                    y = y + 1;
                }
                match best {
                    Option::Some(p) => {
                        used.set(p.0, true);
                        kept.push(lst[p.0]);
                    },
                    Option::None => {
                        break;
                    },
                }
                round = round + 1;
            }
            lst = kept;
        }
        let ghost newlst = lst@;
        self.set_neighbors(fi, layer, lst);
    }

    /// Replaces one adjacency list; nothing else changes.
    fn set_neighbors(&mut self, idx: usize, layer: usize, lst: Vec<u64>)
        requires
            old(self).wf(),
            idx < old(self).nodes@.len(),
            layer < old(self).nodes@[idx as int].neighbors@.len(),
        ensures
            final(self).wf(),
            final(self).spec_config() == old(self).spec_config(),
            final(self).spec_next_id() == old(self).spec_next_id(),
            graph_ids(*final(self)) == graph_ids(*old(self)),
            forall|x: u64| #[trigger] node_vec(*final(self), x) == node_vec(*old(self), x),
            forall|x: u64| #[trigger] node_text(*final(self), x) == node_text(
                *old(self),
                x,
            ),
    {
        let ghost pre = *self;
        self.nodes[idx].neighbors.set(layer, lst);
        proof {
            assert(graph_ids(*self) =~= graph_ids(pre));
            assert forall|j: int| 0 <= j < self.nodes@.len() implies {
                let n = #[trigger] self.nodes@[j];
                &&& n.vector matches Option::Some(v) && vec_ok(v@) && v@.len()
                    == self.spec_config().dimensions
                &&& n.layer < MAX_LAYERS
                &&& n.neighbors@.len() == n.layer + 1
                &&& n.id < self.spec_next_id()
            } by {
                if j != idx {
                    assert(self.nodes@[j] == pre.nodes@[j]);
                }
            }
            assert forall|x: u64|
                #[trigger] node_vec(*self, x) == node_vec(pre, x) && #[trigger] node_text(
                    *self,
                    x,
                ) == node_text(pre, x) by {
                Self::lemma_same_ids_same_vec(pre, *self, x);
            }
        }
    }

    /// Two graphs with the same ids and the same vectors per index name
    /// the same vector for every id.
    proof fn lemma_same_ids_same_vec(pre: HnswIndex, post: HnswIndex, x: u64)
        requires
            graph_ids(post) == graph_ids(pre),
            forall|j: int|
                0 <= j < pre.nodes@.len() ==> (#[trigger] post.nodes@[j]).vector
                    == pre.nodes@[j].vector,
            forall|j: int|
                0 <= j < pre.nodes@.len() ==> (#[trigger] post.nodes@[j]).text
                    == pre.nodes@[j].text,
            post.nodes@.len() == pre.nodes@.len(),
            forall|i: int, j: int|
                0 <= i < j < pre.nodes@.len() ==> (#[trigger] pre.nodes@[i]).id != (
                #[trigger] pre.nodes@[j]).id,
        ensures
            node_vec(post, x) == node_vec(pre, x),
            node_text(post, x) == node_text(pre, x),
    {
        if graph_has(pre, x) {
            assert(graph_has(post, x));
            let j1 = choose|j: int|
                0 <= j < graph_ids(post).len() && graph_ids(post)[j] == x;
            let j2 = choose|j: int|
                0 <= j < graph_ids(pre).len() && graph_ids(pre)[j] == x;
            assert(graph_ids(pre)[j1] == x);
            assert(pre.nodes@[j1].id == x);
            assert(pre.nodes@[j2].id == x);
            if j1 != j2 {
                if j1 < j2 {
                    assert(pre.nodes@[j1].id != pre.nodes@[j2].id);
                } else {
                    assert(pre.nodes@[j2].id != pre.nodes@[j1].id);
                }
            }
            assert(node_vec(post, x) == post.nodes@[j1].vector->Some_0@);
            assert(node_vec(pre, x) == pre.nodes@[j2].vector->Some_0@);
        } else {
            assert(!graph_has(post, x));
        }
    }

    /// Pushing a fresh node with an id above every stored id preserves
    /// the invariant pieces that do not involve the entry point.
    proof fn lemma_graph_push(pre: HnswIndex, post: HnswIndex, id: u64)
        requires
            post.nodes@.len() == pre.nodes@.len() + 1,
            forall|j: int|
                0 <= j < pre.nodes@.len() ==> #[trigger] post.nodes@[j] == pre.nodes@[j],
            forall|i: int, j: int|
                0 <= i < j < pre.nodes@.len() ==> (#[trigger] pre.nodes@[i]).id != (
                #[trigger] pre.nodes@[j]).id,
            forall|j: int|
                0 <= j < pre.nodes@.len() ==> (#[trigger] pre.nodes@[j]).id < id,
            post.nodes@[post.nodes@.len() - 1].id == id,
        ensures
            forall|i: int, j: int|
                0 <= i < j < post.nodes@.len() ==> (#[trigger] post.nodes@[i]).id != (
                #[trigger] post.nodes@[j]).id,
            graph_has(post, id),
    {
        assert(graph_ids(post)[post.nodes@.len() - 1] == id);
        assert forall|i: int, j: int|
            0 <= i < j < post.nodes@.len() implies (#[trigger] post.nodes@[i]).id != (
        #[trigger] post.nodes@[j]).id by {
            if j < post.nodes@.len() - 1 {
                assert(post.nodes@[i] == pre.nodes@[i]);
                assert(post.nodes@[j] == pre.nodes@[j]);
            } else {
                assert(post.nodes@[i] == pre.nodes@[i]);
            }
        }
    }

    /// Searches for the `k` nearest neighbours of a query.  Fails
    /// exactly when the query does not fit the configuration; on an
    /// empty graph the result is empty.  Results are sorted by distance
    /// (ties by id), distinct, and carry exact distances.
    pub fn search(&self, query: &Vec<i64>, k: usize) -> (r: Result<
        Vec<(u64, i64)>,
        KeraDBError,
    >)
        requires
            self.wf(),
        ensures
            r is Ok <==> (vec_ok(query@) && query@.len()
                == self.spec_config().dimensions),
            match r {
                Result::Ok(rs) => {
                    &&& results_ok(*self, query@, rs@)
                    &&& results_sorted(rs@)
                    &&& results_distinct(rs@)
                    &&& rs@.len() <= k
                    &&& (graph_ids(*self).len() > 0 && k >= 1 ==> rs@.len() >= 1)
                    &&& (graph_ids(*self).len() == 0 ==> rs@.len() == 0)
                },
                Result::Err(e) => e is InvalidFormat,
            },
    {
        if query.len() != self.config.dimensions {
            return Result::Err(
                KeraDBError::InvalidFormat("Query dimension mismatch".to_owned()),
            );
        }
        if !crate::compression::vec_ok_exec(query) {
            return Result::Err(
                KeraDBError::InvalidFormat("Query coordinate out of range".to_owned()),
            );
        }
        let entry_id = match self.entry_point {
            Option::Some(e) => e,
            Option::None => {
                return Result::Ok(Vec::new());
            },
        };
        if k == 0 {
            return Result::Ok(Vec::new());
        }
        let mut current = entry_id;
        let mut lc = self.max_layer;
        while lc > 0
            invariant
                self.wf(),
                vec_ok(query@),
                query@.len() == self.spec_config().dimensions,
                graph_has(*self, current),
            decreases lc,
        {
            current = self.search_layer_single(query, current, lc);
            lc = lc - 1;
        }
        let ef = if self.config.ef_search > k {
            self.config.ef_search
        } else {
            k
        };
        let found = self.search_layer(query, current, ef, 0);
        let mut out: Vec<(u64, i64)> = Vec::new();
        let take_n = if k < found.len() {
            k
        } else {
            found.len()
        };
        let mut t: usize = 0;
        while t < take_n
            invariant
                results_ok(*self, query@, found@),
                results_sorted(found@),
                results_distinct(found@),
                take_n <= found@.len(),
                t <= take_n,
                out@ == found@.take(t as int),
            decreases take_n - t,
        {
            out.push(found[t]);
            proof {
                assert(out@ =~= found@.take(t as int + 1));
            }
            t = t + 1;
        }
        proof {
            assert forall|i: int|
                0 <= i < out@.len() implies graph_has(*self, (#[trigger] out@[i]).0)
                && out@[i].1 == spec_distance(
                query@,
                node_vec(*self, out@[i].0),
                self.spec_config().distance,
            ) by {
                assert(out@[i] == found@[i]);
            }
            assert forall|i: int, j: int|
                0 <= i < j < out@.len() implies ((#[trigger] out@[i]).1 < (
            #[trigger] out@[j]).1 || (out@[i].1 == out@[j].1 && out@[i].0 <= out@[j].0))
                && out@[i].0 != out@[j].0 by {
                assert(out@[i] == found@[i]);
                assert(out@[j] == found@[j]);
            }
        }
        Result::Ok(out)
    }

    /// The stored document for an id: its vector, its text, and empty
    /// metadata (the collection layer attaches metadata).
    pub fn get(&self, id: u64) -> (r: Option<VectorDocument>)
        requires
            self.wf(),
        ensures
            r is Some <==> graph_has(*self, id),
            r matches Option::Some(d) ==> d.id == id && (d.embedding
                matches Option::Some(e) && e@ == node_vec(*self, id)) && d.metadata@
                is Null && (match d.text {
                Option::Some(s) => node_text(*self, id) == Option::Some(s@),
                Option::None => node_text(*self, id) is None,
            }),
    {
        match self.find_node(id) {
            Option::Some(j) => {
                proof {
                    self.lemma_node_vec(j as int);
                }
                let node = &self.nodes[j];
                let emb = match &node.vector {
                    Option::Some(v) => vstd::slice::slice_to_vec(v.as_slice()),
                    Option::None => {
                        proof {
                            assert(false);
                        }
                        Vec::new()
                    },
                };
                let text = match &node.text {
                    Option::Some(s) => Option::Some(s.clone()),
                    Option::None => Option::None,
                };
                Option::Some(
                    VectorDocument {
                        id,
                        embedding: Option::Some(emb),
                        text,
                        metadata: Val::Null,
                    },
                )
            },
            Option::None => Option::None,
        }
    }

    /// Deletes a node and strips every edge that pointed at it.  When
    /// the entry point dies, the first surviving node takes its place.
    pub fn delete(&mut self, id: u64) -> (r: Result<bool, KeraDBError>)
        requires
            old(self).wf(),
        ensures
            final(self).wf(),
            final(self).spec_config() == old(self).spec_config(),
            final(self).spec_next_id() == old(self).spec_next_id(),
            r is Ok,
            match r {
                Result::Ok(b) => {
                    &&& b == graph_has(*old(self), id)
                    &&& !graph_has(*final(self), id)
                    &&& (b ==> graph_ids(*final(self)) == graph_ids(*old(self)).remove(
                        choose|j: int|
                            0 <= j < graph_ids(*old(self)).len() && graph_ids(
                                *old(self),
                            )[j] == id,
                    ))
                    &&& (b ==> forall|x: u64, l: int|
                        !(#[trigger] node_neighbors(*final(self), x, l)).contains(id))
                    &&& (!b ==> *final(self) == *old(self))
                },
                Result::Err(_) => false,
            },
    {
        let i = match self.find_node(id) {
            Option::Some(i) => i,
            Option::None => {
                return Result::Ok(false);
            },
        };
        let ghost pre = *self;
        self.nodes.remove(i);
        proof {
            assert forall|a: int, b: int|
                0 <= a < b < self.nodes@.len() implies (#[trigger] self.nodes@[a]).id != (
            #[trigger] self.nodes@[b]).id by {
                let a2: int = if a < i {
                    a
                } else {
                    a + 1
                };
                let b2: int = if b < i {
                    b
                } else {
                    b + 1
                };
                assert(self.nodes@[a] == pre.nodes@[a2]);
                assert(self.nodes@[b] == pre.nodes@[b2]);
            }
            assert forall|j: int| 0 <= j < graph_ids(*self).len() implies graph_ids(
                *self,
            )[j] != id by {
                let j2: int = if j < i {
                    j
                } else {
                    j + 1
                };
                assert(graph_ids(*self)[j] == pre.nodes@[j2].id);
                if pre.nodes@[j2].id == id {
                    if j2 < i {
                        assert(pre.nodes@[j2].id != pre.nodes@[i as int].id);
                    } else {
                        assert(pre.nodes@[i as int].id != pre.nodes@[j2].id);
                    }
                }
            }
            assert(graph_ids(*self) =~= graph_ids(pre).remove(i as int));
        }
        // Strip inbound edges.
        let mut a: usize = 0;
        let ghost mid = *self;
        while a < self.nodes.len()
            invariant
                self.spec_config() == mid.spec_config(),
                self.spec_next_id() == mid.spec_next_id(),
                self.entry_point == mid.entry_point,
                self.max_layer == mid.max_layer,
                graph_ids(*self) == graph_ids(mid),
                self.nodes@.len() == mid.nodes@.len(),
                a <= self.nodes@.len(),
                forall|j: int|
                    0 <= j < self.nodes@.len() ==> {
                        let n = #[trigger] self.nodes@[j];
                        &&& n.vector == mid.nodes@[j].vector
                        &&& n.id == mid.nodes@[j].id
                        &&& n.layer == mid.nodes@[j].layer
                        &&& n.neighbors@.len() == mid.nodes@[j].neighbors@.len()
                    },
                forall|j: int, l2: int|
                    0 <= j < a && 0 <= l2 < (#[trigger] self.nodes@[j]).neighbors@.len()
                        ==> !((#[trigger] self.nodes@[j].neighbors@[l2])@.contains(id)),
            decreases self.nodes@.len() - a,
        {
            let layer_count = self.nodes[a].neighbors.len();
            let mut l: usize = 0;
            while l < layer_count
                invariant
                    a < self.nodes@.len(),
                    layer_count == self.nodes@[a as int].neighbors@.len(),
                    l <= layer_count,
                    self.spec_config() == mid.spec_config(),
                    self.spec_next_id() == mid.spec_next_id(),
                    self.entry_point == mid.entry_point,
                    self.max_layer == mid.max_layer,
                    graph_ids(*self) == graph_ids(mid),
                    self.nodes@.len() == mid.nodes@.len(),
                    forall|j: int|
                        0 <= j < self.nodes@.len() ==> {
                            let n = #[trigger] self.nodes@[j];
                            &&& n.vector == mid.nodes@[j].vector
                            &&& n.id == mid.nodes@[j].id
                            &&& n.layer == mid.nodes@[j].layer
                            &&& n.neighbors@.len() == mid.nodes@[j].neighbors@.len()
                        },
                    forall|j: int, l2: int|
                        0 <= j < a && 0 <= l2 < (
                        #[trigger] self.nodes@[j]).neighbors@.len() ==> !((
                        #[trigger] self.nodes@[j].neighbors@[l2])@.contains(id)),
                    forall|l2: int|
                        0 <= l2 < l ==> !((
                        #[trigger] self.nodes@[a as int].neighbors@[l2])@.contains(id)),
                decreases layer_count - l,
            {
                let old_list = &self.nodes[a].neighbors[l];
                let mut cleaned: Vec<u64> = Vec::new();
                let mut z: usize = 0;
                while z < old_list.len()
                    invariant
                        a < self.nodes@.len(),
                        l < self.nodes@[a as int].neighbors@.len(),
                        old_list@ == (self.nodes@[a as int].neighbors@[l as int])@,
                        z <= old_list@.len(),
                        forall|w: int| 0 <= w < cleaned@.len() ==> #[trigger] cleaned@[w]
                            != id,
                    decreases old_list@.len() - z,
                {
                    let x = old_list[z];
                    if x != id {
                        cleaned.push(x);
                    }
                    z = z + 1;
                }
                let ghost prestep = *self;
                self.nodes[a].neighbors.set(l, cleaned);
                proof {
                    assert(graph_ids(*self) =~= graph_ids(prestep));
                    assert(!((self.nodes@[a as int].neighbors@[l as int])@.contains(id)));
                }
                l = l + 1;
            }
            a = a + 1;
        }
        let ghost stripped = *self;
        proof {
            assert(forall|j: int, l2: int|
                0 <= j < stripped.nodes@.len() && 0 <= l2 < (
                #[trigger] stripped.nodes@[j]).neighbors@.len() ==> !((
                #[trigger] stripped.nodes@[j].neighbors@[l2])@.contains(id)));
        }
        // Replace a dead entry point with the first survivor.
        let was_entry = match self.entry_point {
            Option::Some(e) => e == id,
            Option::None => false,
        };
        if was_entry {
            if self.nodes.len() > 0 {
                let fresh = self.nodes[0].id;
                self.entry_point = Option::Some(fresh);
                proof {
                    assert(graph_ids(*self)[0] == fresh);
                }
            } else {
                self.entry_point = Option::None;
            }
        } else {
            if self.nodes.len() == 0 {
                self.entry_point = Option::None;
            }
        }
        proof {
            assert forall|x: int, y: int|
                0 <= x < y < self.nodes@.len() implies (#[trigger] self.nodes@[x]).id != (
            #[trigger] self.nodes@[y]).id by {
                assert(self.nodes@[x].id == mid.nodes@[x].id);
                assert(self.nodes@[y].id == mid.nodes@[y].id);
                assert(mid.nodes@[x].id == pre.nodes@[if x < i { x } else { x + 1 }].id);
                assert(mid.nodes@[y].id == pre.nodes@[if y < i { y } else { y + 1 }].id);
            }
            assert forall|j: int| 0 <= j < self.nodes@.len() implies {
                let n = #[trigger] self.nodes@[j];
                &&& n.vector matches Option::Some(v) && vec_ok(v@) && v@.len()
                    == self.spec_config().dimensions
                &&& n.layer < MAX_LAYERS
                &&& n.neighbors@.len() == n.layer + 1
                &&& n.id < self.spec_next_id()
            } by {
                let j2: int = if j < i {
                    j
                } else {
                    j + 1
                };
                assert(mid.nodes@[j] == pre.nodes@[j2]);
            }
            match self.entry_point {
                Option::Some(e) => {
                    if !was_entry {
                        assert(graph_has(pre, e));
                        let j = choose|j: int|
                            0 <= j < graph_ids(pre).len() && graph_ids(pre)[j] == e;
                        assert(j != i);
                        let j2: int = if j < i {
                            j
                        } else {
                            j - 1
                        };
                        assert(graph_ids(mid)[j2] == e);
                        assert(graph_has(*self, e));
                    }
                },
                Option::None => {},
            }
            assert(self.nodes@ == stripped.nodes@);
            assert forall|x: u64, l: int| !(#[trigger] node_neighbors(
                *self,
                x,
                l,
            )).contains(id) by {
                if graph_has(*self, x) {
                    let j = choose|j: int|
                        0 <= j < graph_ids(*self).len() && graph_ids(*self)[j] == x;
                    if 0 <= l < self.nodes@[j].neighbors@.len() {
                        assert(!((self.nodes@[j].neighbors@[l])@.contains(id)));
                    }
                }
            }
        }
        Result::Ok(true)
    }

    /// Counts of nodes, layers and edges.
    pub fn stats(&self) -> (r: HnswStats)
        requires
            self.wf(),
        ensures
            r.node_count == graph_ids(*self).len(),
            r.dimensions == self.spec_config().dimensions,
            r.m == self.spec_config().m,
            r.ef_construction == self.spec_config().ef_construction,
    {
        let mut total: usize = 0;
        let mut a: usize = 0;
        while a < self.nodes.len()
            invariant
                a <= self.nodes@.len(),
            decreases self.nodes@.len() - a,
        {
            let layer_count = self.nodes[a].neighbors.len();
            let mut l: usize = 0;
            while l < layer_count
                invariant
                    a < self.nodes@.len(),
                    layer_count == self.nodes@[a as int].neighbors@.len(),
                    l <= layer_count,
                decreases layer_count - l,
            {
                total = match total.checked_add(self.nodes[a].neighbors[l].len()) {
                    Option::Some(s) => s,
                    Option::None => usize::MAX,
                };
                l = l + 1;
            }
            a = a + 1;
        }
        HnswStats {
            node_count: self.nodes.len(),
            max_layer: self.max_layer,
            total_connections: total,
            dimensions: self.config.dimensions,
            m: self.config.m,
            ef_construction: self.config.ef_construction,
        }
    }
}

/// An integer clamped into the signed 64-bit range from above.
pub open spec fn clamp_i64(x: int) -> int {
    if x > i64::MAX {
        i64::MAX as int
    } else {
        x
    }
}

/// The distance metric as a small integer code.
pub open spec fn spec_distance_code(d: Distance) -> int {
    match d {
        Distance::Cosine => 0,
        Distance::Euclidean => 1,
        Distance::DotProduct => 2,
        Distance::Manhattan => 3,
    }
}

/// The compression mode as a small integer code.
pub open spec fn spec_mode_code(m: CompressionMode) -> int {
    match m {
        CompressionMode::NoCompression => 0,
        CompressionMode::Delta => 1,
        CompressionMode::QuantizedDelta => 2,
    }
}

/// One adjacency list as a JSON array of ids.  Ids are clamped into
/// the signed range; real ids sit below the id counter, which the
/// invariant keeps in that range.
pub open spec fn neighbors_model(l: Seq<u64>) -> ValModel {
    ValModel::Arr(Seq::new(l.len(), |i: int| ValModel::Int(clamp_i64(l[i] as int))))
}

/// One node as a JSON array: id, layer, coordinates, source text (or
/// null), and one id array per layer.
pub open spec fn node_model(n: HnswNode) -> ValModel {
    ValModel::Arr(
        seq![
            ValModel::Int(clamp_i64(n.id as int)),
            ValModel::Int(clamp_i64(n.layer as int)),
            (match n.vector {
                Option::Some(v) => ValModel::Arr(
                    Seq::new(v@.len(), |i: int| ValModel::Int(v@[i] as int)),
                ),
                Option::None => ValModel::Null,
            }),
            (match n.text {
                Option::Some(s) => ValModel::Str(s@),
                Option::None => ValModel::Null,
            }),
            ValModel::Arr(
                Seq::new(n.neighbors@.len(), |i: int| neighbors_model(n.neighbors@[i]@)),
            ),
        ],
    )
}

/// The graph as one JSON array: the configuration's scalars, the entry
/// point (or null), the top layer, the id counter, and the nodes.
pub closed spec fn hnsw_val_model(g: HnswIndex) -> ValModel {
    ValModel::Arr(
        seq![
            ValModel::Int(clamp_i64(g.config.dimensions as int)),
            ValModel::Int(spec_distance_code(g.config.distance)),
            ValModel::Int(clamp_i64(g.config.m as int)),
            ValModel::Int(clamp_i64(g.config.ef_construction as int)),
            ValModel::Int(clamp_i64(g.config.ef_search as int)),
            ValModel::Bool(g.config.lazy_embedding),
            (match g.config.embedding_model {
                Option::Some(s) => ValModel::Str(s@),
                Option::None => ValModel::Null,
            }),
            ValModel::Int(spec_mode_code(g.config.compression.mode)),
            ValModel::Int(g.config.compression.sparsity_threshold as int),
            ValModel::Int(g.config.compression.max_density as int),
            ValModel::Int(clamp_i64(g.config.compression.anchor_frequency as int)),
            ValModel::Int(g.config.compression.quantization_bits as int),
            (match g.entry_point {
                Option::Some(e) => ValModel::Int(clamp_i64(e as int)),
                Option::None => ValModel::Null,
            }),
            ValModel::Int(clamp_i64(g.max_layer as int)),
            ValModel::Int(clamp_i64(g.next_id as int)),
            ValModel::Arr(Seq::new(g.nodes@.len(), |i: int| node_model(g.nodes@[i]))),
        ],
    )
}

/// What serialising a graph yields: the canonical rendering of its
/// JSON model.
pub open spec fn spec_hnsw_bytes(g: HnswIndex) -> Seq<u8> {
    spec_render(hnsw_val_model(g))
}

/// A 64-bit id as a JSON integer, clamped into the signed range.
pub(crate) fn u64_int_val(x: u64) -> (r: Val)
    ensures
        r@ == ValModel::Int(clamp_i64(x as int)),
{
    if x <= (i64::MAX as u64) {
        Val::Int(x as i64)
    } else {
        Val::Int(i64::MAX)
    }
}

/// A machine-word count as a JSON integer, clamped into the signed
/// range.
fn usize_int_val(x: usize) -> (r: Val)
    ensures
        r@ == ValModel::Int(clamp_i64(x as int)),
{
    if (x as u64) <= (i64::MAX as u64) {
        Val::Int(x as i64)
    } else {
        Val::Int(i64::MAX)
    }
}

/// An adjacency list as a JSON array value.
fn ids_arr_val(l: &Vec<u64>) -> (r: Val)
    ensures
        r@ == neighbors_model(l@),
{
    let mut items: Vec<Val> = Vec::new();
    let mut k: usize = 0;
    while k < l.len()
        invariant
            k <= l@.len(),
            items@.len() == k,
            forall|j: int|
                0 <= j < k ==> val_model(#[trigger] items@[j]) == ValModel::Int(
                    clamp_i64(l@[j] as int),
                ),
        decreases l@.len() - k,
    {
        items.push(u64_int_val(l[k]));
        k = k + 1;
    }
    proof {
        lemma_val_models_len(items@);
        assert forall|i: int| 0 <= i < items@.len() implies #[trigger] val_models(
            items@,
        )[i] == ValModel::Int(clamp_i64(l@[i] as int)) by {
            lemma_val_models_index(items@, i);
        }
        assert(val_models(items@) =~= Seq::new(
            l@.len(),
            |i: int| ValModel::Int(clamp_i64(l@[i] as int)),
        ));
    }
    Val::Arr(items)
}

/// A coordinate vector as a JSON array value.
fn coords_arr_val(l: &Vec<i64>) -> (r: Val)
    ensures
        r@ == ValModel::Arr(Seq::new(l@.len(), |i: int| ValModel::Int(l@[i] as int))),
{
    let mut items: Vec<Val> = Vec::new();
    let mut k: usize = 0;
    while k < l.len()
        invariant
            k <= l@.len(),
            items@.len() == k,
            forall|j: int|
                0 <= j < k ==> val_model(#[trigger] items@[j]) == ValModel::Int(
                    l@[j] as int,
                ),
        decreases l@.len() - k,
    {
        items.push(Val::Int(l[k]));
        k = k + 1;
    }
    proof {
        lemma_val_models_len(items@);
        assert forall|i: int| 0 <= i < items@.len() implies #[trigger] val_models(
            items@,
        )[i] == ValModel::Int(l@[i] as int) by {
            lemma_val_models_index(items@, i);
        }
        assert(val_models(items@) =~= Seq::new(
            l@.len(),
            |i: int| ValModel::Int(l@[i] as int),
        ));
    }
    Val::Arr(items)
}

/// One node as a JSON array value.
fn node_val(n: &HnswNode) -> (r: Val)
    ensures
        r@ == node_model(*n),
{
    let id_v = u64_int_val(n.id);
    let layer_v = usize_int_val(n.layer);
    let vec_v = match &n.vector {
        Option::Some(v) => coords_arr_val(v),
        Option::None => Val::Null,
    };
    let text_v = match &n.text {
        Option::Some(s) => Val::Str(s.clone()),
        Option::None => Val::Null,
    };
    let mut lists: Vec<Val> = Vec::new();
    let mut k: usize = 0;
    while k < n.neighbors.len()
        invariant
            k <= n.neighbors@.len(),
            lists@.len() == k,
            forall|j: int|
                0 <= j < k ==> val_model(#[trigger] lists@[j]) == neighbors_model(
                    n.neighbors@[j]@,
                ),
        decreases n.neighbors@.len() - k,
    {
        lists.push(ids_arr_val(&n.neighbors[k]));
        k = k + 1;
    }
    proof {
        lemma_val_models_len(lists@);
        assert forall|i: int| 0 <= i < lists@.len() implies #[trigger] val_models(
            lists@,
        )[i] == neighbors_model(n.neighbors@[i]@) by {
            lemma_val_models_index(lists@, i);
        }
        assert(val_models(lists@) =~= Seq::new(
            n.neighbors@.len(),
            |i: int| neighbors_model(n.neighbors@[i]@),
        ));
    }
    let lists_v = Val::Arr(lists);
    let mut items: Vec<Val> = Vec::new();
    items.push(id_v);
    items.push(layer_v);
    items.push(vec_v);
    items.push(text_v);
    items.push(lists_v);
    proof {
        lemma_val_models_len(items@);
        assert forall|i: int| 0 <= i < items@.len() implies #[trigger] val_models(
            items@,
        )[i] == val_model(items@[i]) by {
            lemma_val_models_index(items@, i);
        }
        assert(val_models(items@) =~= (match node_model(*n) {
            ValModel::Arr(ms) => ms,
            _ => Seq::empty(),
        }));
    }
    Val::Arr(items)
}

impl HnswIndex {
    /// The graph as a JSON value.
    pub(crate) fn build_val(&self) -> (r: Val)
        ensures
            r@ == hnsw_val_model(*self),
    {
        let mut nodes_items: Vec<Val> = Vec::new();
        let mut k: usize = 0;
        while k < self.nodes.len()
            invariant
                k <= self.nodes@.len(),
                nodes_items@.len() == k,
                forall|j: int|
                    0 <= j < k ==> val_model(#[trigger] nodes_items@[j]) == node_model(
                        self.nodes@[j],
                    ),
            decreases self.nodes@.len() - k,
        {
            nodes_items.push(node_val(&self.nodes[k]));
            k = k + 1;
        }
        proof {
            lemma_val_models_len(nodes_items@);
            assert forall|i: int| 0 <= i < nodes_items@.len() implies #[trigger] val_models(
                nodes_items@,
            )[i] == node_model(self.nodes@[i]) by {
                lemma_val_models_index(nodes_items@, i);
            }
            assert(val_models(nodes_items@) =~= Seq::new(
                self.nodes@.len(),
                |i: int| node_model(self.nodes@[i]),
            ));
        }
        let nodes_v = Val::Arr(nodes_items);
        let dist_code: i64 = match self.config.distance {
            Distance::Cosine => 0,
            Distance::Euclidean => 1,
            Distance::DotProduct => 2,
            Distance::Manhattan => 3,
        };
        let mode_code: i64 = match self.config.compression.mode {
            CompressionMode::NoCompression => 0,
            CompressionMode::Delta => 1,
            CompressionMode::QuantizedDelta => 2,
        };
        let model_v = match &self.config.embedding_model {
            Option::Some(s) => Val::Str(s.clone()),
            Option::None => Val::Null,
        };
        let entry_v = match self.entry_point {
            Option::Some(e) => u64_int_val(e),
            Option::None => Val::Null,
        };
        let mut items: Vec<Val> = Vec::new();
        items.push(usize_int_val(self.config.dimensions));
        items.push(Val::Int(dist_code));
        items.push(usize_int_val(self.config.m));
        items.push(usize_int_val(self.config.ef_construction));
        items.push(usize_int_val(self.config.ef_search));
        items.push(Val::Bool(self.config.lazy_embedding));
        items.push(model_v);
        items.push(Val::Int(mode_code));
        items.push(Val::Int(self.config.compression.sparsity_threshold));
        items.push(Val::Int(self.config.compression.max_density as i64));
        items.push(usize_int_val(self.config.compression.anchor_frequency));
        items.push(Val::Int(self.config.compression.quantization_bits as i64));
        items.push(entry_v);
        items.push(usize_int_val(self.max_layer));
        items.push(u64_int_val(self.next_id));
        items.push(nodes_v);
        proof {
            lemma_val_models_len(items@);
            assert forall|i: int| 0 <= i < items@.len() implies #[trigger] val_models(
                items@,
            )[i] == val_model(items@[i]) by {
                lemma_val_models_index(items@, i);
            }
            assert(val_models(items@) =~= (match hnsw_val_model(*self) {
                ValModel::Arr(ms) => ms,
                _ => Seq::empty(),
            }));
        }
        Val::Arr(items)
    }

    /// Serialises the graph into its canonical byte image.
    pub fn to_bytes(&self) -> (r: Vec<u8>)
        ensures
            r@ == spec_hnsw_bytes(*self),
    {
        let v = self.build_val();
        crate::jsontext::render_to_bytes(&v)
    }
}


/// Whether two byte strings are equal.
pub(crate) fn bytes_eq(a: &[u8], b: &[u8]) -> (r: bool)
    ensures
        r == (a@ == b@),
{
    if a.len() != b.len() {
        proof {
            assert(a@.len() != b@.len());
        }
        return false;
    }
    let mut k: usize = 0;
    while k < a.len()
        invariant
            a@.len() == b@.len(),
            k <= a@.len(),
            forall|j: int| 0 <= j < k ==> a@[j] == b@[j],
        decreases a@.len() - k,
    {
        if a[k] != b[k] {
            proof {
                assert(a@[k as int] != b@[k as int]);
            }
            return false;
        }
        k = k + 1;
    }
    proof {
        assert(a@ =~= b@);
    }
    true
}

/// A coordinate array read back from a JSON value: exactly `dims`
/// integers, each within the fixed-point range.
fn parse_coords(v: &Val, dims: usize) -> (r: Option<Vec<i64>>)
    requires
        1 <= dims <= DIM_LIMIT,
    ensures
        r matches Option::Some(c) ==> vec_ok(c@) && c@.len() == dims,
{
    let items = match v {
        Val::Arr(items) => items,
        _ => {
            return Option::None;
        },
    };
    if items.len() != dims {
        return Option::None;
    }
    let mut out: Vec<i64> = Vec::new();
    let mut k: usize = 0;
    while k < items.len()
        invariant
            k <= items@.len(),
            out@.len() == k,
            forall|j: int|
                0 <= j < k ==> -(crate::distance::COORD_LIMIT as int) <= #[trigger] out@[j]
                    <= crate::distance::COORD_LIMIT as int,
        decreases items@.len() - k,
    {
        let c = match &items[k] {
            Val::Int(i) => *i,
            _ => {
                return Option::None;
            },
        };
        if c > crate::distance::COORD_LIMIT || c < -crate::distance::COORD_LIMIT {
            return Option::None;
        }
        out.push(c);
        k = k + 1;
    }
    Option::Some(out)
}

/// An id list read back from a JSON value: non-negative integers.
fn parse_id_list(v: &Val) -> (r: Option<Vec<u64>>)
{
    let items = match v {
        Val::Arr(items) => items,
        _ => {
            return Option::None;
        },
    };
    let mut out: Vec<u64> = Vec::new();
    let mut k: usize = 0;
    while k < items.len()
        invariant
            k <= items@.len(),
        decreases items@.len() - k,
    {
        let c = match &items[k] {
            Val::Int(i) => *i,
            _ => {
                return Option::None;
            },
        };
        if c < 0 {
            return Option::None;
        }
        out.push(c as u64);
        k = k + 1;
    }
    Option::Some(out)
}

/// One node read back from a JSON value, with every per-node invariant
/// checked: a vector of the right dimension, a layer within bounds,
/// one adjacency list per layer, and an id below the counter.
fn parse_node(v: &Val, dims: usize, next_id: u64) -> (r: Option<HnswNode>)
    requires
        1 <= dims <= DIM_LIMIT,
    ensures
        r matches Option::Some(n) ==> {
            &&& (n.vector matches Option::Some(vv) && vec_ok(vv@) && vv@.len() == dims)
            &&& n.layer < MAX_LAYERS
            &&& n.neighbors@.len() == n.layer + 1
            &&& n.id < next_id
        },
{
    let items = match v {
        Val::Arr(items) => items,
        _ => {
            return Option::None;
        },
    };
    if items.len() != 5 {
        return Option::None;
    }
    let id = match &items[0] {
        Val::Int(i) => if *i >= 0 {
            *i as u64
        } else {
            return Option::None;
        },
        _ => {
            return Option::None;
        },
    };
    if id >= next_id {
        return Option::None;
    }
    let layer = match &items[1] {
        Val::Int(i) => if *i >= 0 && *i < MAX_LAYERS as i64 {
            *i as usize
        } else {
            return Option::None;
        },
        _ => {
            return Option::None;
        },
    };
    let coords = match parse_coords(&items[2], dims) {
        Option::Some(c) => c,
        Option::None => {
            return Option::None;
        },
    };
    let text = match &items[3] {
        Val::Str(s) => Option::Some(s.clone()),
        Val::Null => Option::None,
        _ => {
            return Option::None;
        },
    };
    let lists_items = match &items[4] {
        Val::Arr(ls) => ls,
        _ => {
            return Option::None;
        },
    };
    if lists_items.len() != layer + 1 {
        return Option::None;
    }
    let mut neighbors: Vec<Vec<u64>> = Vec::new();
    let mut k: usize = 0;
    while k < lists_items.len()
        invariant
            k <= lists_items@.len(),
            neighbors@.len() == k,
        decreases lists_items@.len() - k,
    {
        let l = match parse_id_list(&lists_items[k]) {
            Option::Some(l) => l,
            Option::None => {
                return Option::None;
            },
        };
        neighbors.push(l);
        k = k + 1;
    }
    Option::Some(HnswNode { id, vector: Option::Some(coords), text, neighbors, layer })
}

/// An integer scalar read back from a JSON value, within given bounds.
fn parse_bounded(v: &Val, lo: i64, hi: i64) -> (r: Option<i64>)
    ensures
        r matches Option::Some(i) ==> lo <= i <= hi,
{
    match v {
        Val::Int(i) => if lo <= *i && *i <= hi {
            Option::Some(*i)
        } else {
            Option::None
        },
        _ => Option::None,
    }
}

impl HnswIndex {
    /// Reads a graph back from its JSON value, validating every
    /// invariant; a returned graph is well-formed.
    pub(crate) fn from_val(top: &Val) -> (r: Result<HnswIndex, KeraDBError>)
        ensures
            r matches Result::Ok(g) ==> g.wf(),
    {
        let items = match top {
            Val::Arr(items) => items,
            _ => {
                return Result::Err(
                    KeraDBError::InvalidFormat("unreadable vector index image".to_owned()),
                );
            },
        };
        if items.len() != 16 {
            return Result::Err(
                KeraDBError::InvalidFormat("unreadable vector index image".to_owned()),
            );
        }
        let dims = match parse_bounded(&items[0], 1, DIM_LIMIT as i64) {
            Option::Some(i) => i as usize,
            Option::None => {
                return Result::Err(
                    KeraDBError::InvalidFormat("unreadable vector index image".to_owned()),
                );
            },
        };
        let distance = match &items[1] {
            Val::Int(0) => Distance::Cosine,
            Val::Int(1) => Distance::Euclidean,
            Val::Int(2) => Distance::DotProduct,
            Val::Int(3) => Distance::Manhattan,
            _ => {
                return Result::Err(
                    KeraDBError::InvalidFormat("unreadable vector index image".to_owned()),
                );
            },
        };
        let m = match parse_bounded(&items[2], 2, 1024) {
            Option::Some(i) => i as usize,
            Option::None => {
                return Result::Err(
                    KeraDBError::InvalidFormat("unreadable vector index image".to_owned()),
                );
            },
        };
        let ef_construction = match parse_bounded(&items[3], 1, 4096) {
            Option::Some(i) => i as usize,
            Option::None => {
                return Result::Err(
                    KeraDBError::InvalidFormat("unreadable vector index image".to_owned()),
                );
            },
        };
        let ef_search = match parse_bounded(&items[4], 1, 4096) {
            Option::Some(i) => i as usize,
            Option::None => {
                return Result::Err(
                    KeraDBError::InvalidFormat("unreadable vector index image".to_owned()),
                );
            },
        };
        let lazy_embedding = match &items[5] {
            Val::Bool(b) => *b,
            _ => {
                return Result::Err(
                    KeraDBError::InvalidFormat("unreadable vector index image".to_owned()),
                );
            },
        };
        let embedding_model = match &items[6] {
            Val::Str(s) => Option::Some(s.clone()),
            Val::Null => Option::None,
            _ => {
                return Result::Err(
                    KeraDBError::InvalidFormat("unreadable vector index image".to_owned()),
                );
            },
        };
        let mode = match &items[7] {
            Val::Int(0) => CompressionMode::NoCompression,
            Val::Int(1) => CompressionMode::Delta,
            Val::Int(2) => CompressionMode::QuantizedDelta,
            _ => {
                return Result::Err(
                    KeraDBError::InvalidFormat("unreadable vector index image".to_owned()),
                );
            },
        };
        let sparsity_threshold = match parse_bounded(
            &items[8],
            0,
            crate::distance::COORD_LIMIT,
        ) {
            Option::Some(i) => i,
            Option::None => {
                return Result::Err(
                    KeraDBError::InvalidFormat("unreadable vector index image".to_owned()),
                );
            },
        };
        let max_density = match parse_bounded(&items[9], 0, 100) {
            Option::Some(i) => i as u32,
            Option::None => {
                return Result::Err(
                    KeraDBError::InvalidFormat("unreadable vector index image".to_owned()),
                );
            },
        };
        let anchor_frequency = match parse_bounded(&items[10], 1, 1000000000) {
            Option::Some(i) => i as usize,
            Option::None => {
                return Result::Err(
                    KeraDBError::InvalidFormat("unreadable vector index image".to_owned()),
                );
            },
        };
        let quantization_bits = match parse_bounded(&items[11], 0, 255) {
            Option::Some(i) => i as u8,
            Option::None => {
                return Result::Err(
                    KeraDBError::InvalidFormat("unreadable vector index image".to_owned()),
                );
            },
        };
        let max_layer = match parse_bounded(&items[13], 0, (MAX_LAYERS - 1) as i64) {
            Option::Some(i) => i as usize,
            Option::None => {
                return Result::Err(
                    KeraDBError::InvalidFormat("unreadable vector index image".to_owned()),
                );
            },
        };
        let next_id = match parse_bounded(&items[14], 0, i64::MAX) {
            Option::Some(i) => i as u64,
            Option::None => {
                return Result::Err(
                    KeraDBError::InvalidFormat("unreadable vector index image".to_owned()),
                );
            },
        };
        let nodes_items = match &items[15] {
            Val::Arr(ns) => ns,
            _ => {
                return Result::Err(
                    KeraDBError::InvalidFormat("unreadable vector index image".to_owned()),
                );
            },
        };
        let mut nodes: Vec<HnswNode> = Vec::new();
        let mut k: usize = 0;
        while k < nodes_items.len()
            invariant
                1 <= dims <= DIM_LIMIT,
                next_id <= i64::MAX as u64,
                k <= nodes_items@.len(),
                nodes@.len() == k,
                forall|j: int|
                    0 <= j < k ==> {
                        let n = #[trigger] nodes@[j];
                        &&& (n.vector matches Option::Some(vv) && vec_ok(vv@) && vv@.len()
                            == dims)
                        &&& n.layer < MAX_LAYERS
                        &&& n.neighbors@.len() == n.layer + 1
                        &&& n.id < next_id
                    },
                forall|a: int, b: int|
                    0 <= a < b < k ==> (#[trigger] nodes@[a]).id < (
                    #[trigger] nodes@[b]).id,
            decreases nodes_items@.len() - k,
        {
            let n = match parse_node(&nodes_items[k], dims, next_id) {
                Option::Some(n) => n,
                Option::None => {
                    return Result::Err(
                        KeraDBError::InvalidFormat(
                            "unreadable vector index image".to_owned(),
                        ),
                    );
                },
            };
            if k > 0 {
                if n.id <= nodes[k - 1].id {
                    return Result::Err(
                        KeraDBError::InvalidFormat(
                            "unreadable vector index image".to_owned(),
                        ),
                    );
                }
            }
            nodes.push(n);
            k = k + 1;
        }
        let entry_point: Option<u64> = match &items[12] {
            Val::Null => {
                if nodes.len() != 0 {
                    return Result::Err(
                        KeraDBError::InvalidFormat(
                            "unreadable vector index image".to_owned(),
                        ),
                    );
                }
                Option::None
            },
            Val::Int(e0) => {
                if *e0 < 0 {
                    return Result::Err(
                        KeraDBError::InvalidFormat(
                            "unreadable vector index image".to_owned(),
                        ),
                    );
                }
                let e = *e0 as u64;
                let mut found = false;
                let mut t: usize = 0;
                while t < nodes.len()
                    invariant
                        t <= nodes@.len(),
                        found ==> exists|j: int|
                            0 <= j < nodes@.len() && (#[trigger] nodes@[j]).id == e,
                    decreases nodes@.len() - t,
                {
                    if nodes[t].id == e {
                        found = true;
                    }
                    t = t + 1;
                }
                if !found {
                    return Result::Err(
                        KeraDBError::InvalidFormat(
                            "unreadable vector index image".to_owned(),
                        ),
                    );
                }
                Option::Some(e)
            },
            _ => {
                return Result::Err(
                    KeraDBError::InvalidFormat("unreadable vector index image".to_owned()),
                );
            },
        };
        let config = VectorConfig {
            dimensions: dims,
            distance,
            m,
            ef_construction,
            ef_search,
            lazy_embedding,
            embedding_model,
            compression: crate::compression::CompressionConfig {
                mode,
                sparsity_threshold,
                max_density,
                anchor_frequency,
                quantization_bits,
            },
        };
        let g = HnswIndex { config, nodes, entry_point, max_layer, next_id };
        proof {
            assert forall|a: int, b: int|
                0 <= a < b < g.nodes@.len() implies (#[trigger] g.nodes@[a]).id != (
            #[trigger] g.nodes@[b]).id by {
                assert(g.nodes@[a].id < g.nodes@[b].id);
            }
            match g.entry_point {
                Option::Some(e) => {
                    let j = choose|j: int|
                        0 <= j < g.nodes@.len() && (#[trigger] g.nodes@[j]).id == e;
                    assert(graph_ids(g)[j] == e);
                },
                Option::None => {},
            }
            assert(g.wf());
        }
        Result::Ok(g)
    }

    /// Reads a graph back from its byte image.  The image is validated
    /// in full: a returned graph satisfies the invariant, and
    /// re-serialises to exactly the given bytes; anything else is
    /// rejected.
    pub fn from_bytes(bytes: &[u8]) -> (r: Result<HnswIndex, KeraDBError>)
        ensures
            r matches Result::Ok(g) ==> g.wf() && bytes@ == spec_hnsw_bytes(g),
    {
        let top = match crate::jsonparse::parse_document_bytes(bytes) {
            Option::Some(v) => v,
            Option::None => {
                return Result::Err(
                    KeraDBError::InvalidFormat("unreadable vector index image".to_owned()),
                );
            },
        };
        let g = match Self::from_val(&top) {
            Result::Ok(g) => g,
            Result::Err(e) => {
                return Result::Err(e);
            },
        };
        let re = g.to_bytes();
        if !bytes_eq(bytes, re.as_slice()) {
            return Result::Err(
                KeraDBError::InvalidFormat("unreadable vector index image".to_owned()),
            );
        }
        Result::Ok(g)
    }
}


} // verus!

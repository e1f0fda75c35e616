//! Vector collections: an HNSW graph with per-id metadata, and the
//! registry of named collections.

use vstd::prelude::*;
use crate::assoc::{assoc_get, assoc_unique, lemma_assoc_get_found, lemma_assoc_get_absent,
    lemma_assoc_get_push, lemma_assoc_none_no_key, lemma_assoc_get_remove};
use crate::distance::vec_ok;
use crate::error::KeraDBError;
use crate::embedding::{EmbeddingProvider, ProviderKind};
use crate::distance::spec_distance;
use crate::hnsw::{HnswIndex, graph_has, graph_ids, node_vec, node_text, node_neighbors,
    results_ok,
    results_sorted, results_distinct, HnswStats, hnsw_val_model, clamp_i64, u64_int_val,
    bytes_eq};
use crate::jsontext::spec_render;
use crate::jsonval::{Val, ValModel, val_model, val_models, lemma_val_models_len,
    lemma_val_models_index};
use crate::vectypes::{VectorConfig, VectorDocument, VectorSearchResult, MetadataFilter,
    filter_model, spec_filter_matches};

verus! {

/// A named vector collection: a graph plus a metadata table.
pub struct VectorCollection {
    pub name: String,
    index: HnswIndex,
    metadata: Vec<(u64, Val)>,
    provider: Option<ProviderKind>,
}

/// The metadata table of a collection.
pub closed spec fn coll_metadata(c: VectorCollection) -> Seq<(u64, ValModel)> {
    Seq::new(c.metadata@.len(), |i: int| (c.metadata@[i].0, val_model(c.metadata@[i].1)))
}

/// The graph of a collection.
pub closed spec fn coll_graph(c: VectorCollection) -> HnswIndex {
    c.index
}

/// The name of a collection.
pub closed spec fn coll_name(c: VectorCollection) -> Seq<char> {
    c.name@
}

/// The embedding provider of a collection, if one is configured.
pub closed spec fn coll_provider(c: VectorCollection) -> Option<ProviderKind> {
    c.provider
}

/// Whether every ranked result names a graph id and its rank, its
/// exact distance to the query under the collection's metric, and
/// carries that node's vector and its stored metadata.
pub open spec fn results_exact(
    c: VectorCollection,
    query: Seq<i64>,
    rs: Seq<VectorSearchResult>,
) -> bool {
    forall|i: int|
        0 <= i < rs.len() ==> {
            let p = #[trigger] rs[i];
            &&& graph_has(coll_graph(c), p.document.id)
            &&& p.rank == i
            &&& p.score == spec_distance(
                query,
                node_vec(coll_graph(c), p.document.id),
                c.spec_config().distance,
            )
            &&& (p.document.embedding matches Option::Some(e) && e@ == node_vec(
                coll_graph(c),
                p.document.id,
            ))
            &&& p.document.metadata@ == (match assoc_get(coll_metadata(c), p.document.id) {
                Option::Some(m) => m,
                Option::None => ValModel::Null,
            })
        }
}

/// As [`results_exact`] without the distance clause, for searches
/// whose query vector is derived from text.
pub open spec fn results_attached(c: VectorCollection, rs: Seq<VectorSearchResult>) -> bool {
    forall|i: int|
        0 <= i < rs.len() ==> {
            let p = #[trigger] rs[i];
            &&& graph_has(coll_graph(c), p.document.id)
            &&& p.rank == i
            &&& (p.document.embedding matches Option::Some(e) && e@ == node_vec(
                coll_graph(c),
                p.document.id,
            ))
            &&& p.document.metadata@ == (match assoc_get(coll_metadata(c), p.document.id) {
                Option::Some(m) => m,
                Option::None => ValModel::Null,
            })
        }
}

/// Whether ranked results are sorted by score (ties by ascending id)
/// and name pairwise distinct documents.
pub open spec fn results_ranked(rs: Seq<VectorSearchResult>) -> bool {
    &&& forall|i: int, j: int|
        0 <= i < j < rs.len() ==> ((#[trigger] rs[i]).score < (#[trigger] rs[j]).score || (
        rs[i].score == rs[j].score && rs[i].document.id <= rs[j].document.id))
    &&& forall|i: int, j: int|
        0 <= i < j < rs.len() ==> (#[trigger] rs[i]).document.id != (
        #[trigger] rs[j]).document.id
}

impl VectorCollection {
    /// The collection's invariant.
    pub open spec fn wf(self) -> bool {
        &&& coll_graph(self).wf()
        &&& assoc_unique(coll_metadata(self))
        &&& forall|j: int|
            0 <= j < coll_metadata(self).len() ==> (#[trigger] coll_metadata(self)[j]).0
                < coll_graph(self).spec_next_id()
    }

    /// The collection's configuration.
    pub open spec fn spec_config(self) -> VectorConfig {
        coll_graph(self).spec_config()
    }

    /// The collection's name, borrowed.
    pub fn name_str(&self) -> (r: &str)
        ensures
            r@ == coll_name(*self),
    {
        self.name.as_str()
    }

    /// The collection's name, as a fresh string.
    pub fn name_string(&self) -> (r: String)
        ensures
            r@ == coll_name(*self),
    {
        self.name.clone()
    }

    /// A fresh, empty collection.
    pub fn new(name: String, config: VectorConfig) -> (r: VectorCollection)
        requires
            config.wf(),
        ensures
            r.wf(),
            coll_name(r) == name@,
            r.spec_config() == config,
            graph_ids(coll_graph(r)).len() == 0,
            coll_graph(r).spec_next_id() == 0,
    {
        let r = VectorCollection {
            name,
            index: HnswIndex::new(config),
            metadata: Vec::new(),
            provider: Option::None,
        };
        proof {
            assert(coll_metadata(r) =~= Seq::<(u64, ValModel)>::empty());
        }
        r
    }

    /// A fresh collection with an embedding provider for text.
    pub fn with_embedding_provider(name: String, config: VectorConfig,
        provider: ProviderKind) -> (r: VectorCollection)
        requires
            config.wf(),
        ensures
            r.wf(),
            coll_name(r) == name@,
            r.spec_config() == config,
            graph_ids(coll_graph(r)).len() == 0,
            coll_graph(r).spec_next_id() == 0,
    {
        let r = VectorCollection {
            name,
            index: HnswIndex::new(config),
            metadata: Vec::new(),
            provider: Option::Some(provider),
        };
        proof {
            assert(coll_metadata(r) =~= Seq::<(u64, ValModel)>::empty());
        }
        r
    }

    /// Inserts a vector with optional metadata.  Fails exactly when the
    /// vector does not fit the configuration or the id space is
    /// exhausted.
    pub fn insert(&mut self, vector: Vec<i64>, metadata: Option<Val>) -> (r: Result<
        u64,
        KeraDBError,
    >)
        requires
            old(self).wf(),
        ensures
            final(self).wf(),
            final(self).spec_config() == old(self).spec_config(),
            r is Ok <==> (vec_ok(vector@) && vector@.len()
                == old(self).spec_config().dimensions && coll_graph(
                *old(self),
            ).spec_next_id() < i64::MAX as u64),
            match r {
                Result::Ok(id) => {
                    &&& graph_has(coll_graph(*final(self)), id)
                    &&& node_vec(coll_graph(*final(self)), id) == vector@
                    &&& (match metadata {
                        Option::Some(m) => assoc_get(coll_metadata(*final(self)), id)
                            == Option::Some(m@),
                        Option::None => assoc_get(coll_metadata(*final(self)), id)
                            is None,
                    })
                },
                Result::Err(e) => e is InvalidFormat,
            },
    {
        let ghost pre = *self;
        let id = match self.index.insert(vector) {
            Result::Ok(id) => id,
            Result::Err(e) => {
                return Result::Err(e);
            },
        };
        proof {
            assert(coll_metadata(*self) == coll_metadata(pre));
            assert forall|j: int| 0 <= j < coll_metadata(*self).len() implies (
            #[trigger] coll_metadata(*self)[j]).0 != id by {
                assert(coll_metadata(pre)[j].0 < coll_graph(pre).spec_next_id());
            }
            let gids = graph_ids(coll_graph(*self));
            assert(gids[gids.len() - 1] == id);
            assert(graph_has(coll_graph(*self), id));
        }
        match metadata {
            Option::Some(m) => {
                let ghost pre2 = *self;
                let ghost gm = m@;
                self.metadata.push((id, m));
                proof {
                    assert(coll_metadata(*self) =~= coll_metadata(pre2).push((id, gm)));
                    lemma_assoc_get_push(coll_metadata(pre2), id, gm, id);
                    lemma_assoc_get_absent(coll_metadata(pre2), id);
                    assert forall|a: int, b: int|
                        0 <= a < b < coll_metadata(*self).len() implies (
                    #[trigger] coll_metadata(*self)[a]).0 != (#[trigger] coll_metadata(
                        *self,
                    )[b]).0 by {
                        if b < coll_metadata(*self).len() - 1 {
                            assert(coll_metadata(*self)[a] == coll_metadata(pre2)[a]);
                            assert(coll_metadata(*self)[b] == coll_metadata(pre2)[b]);
                        } else {
                            assert(coll_metadata(*self)[a] == coll_metadata(pre2)[a]);
                        }
                    }
                    assert forall|j: int|
                        0 <= j < coll_metadata(*self).len() implies (
                    #[trigger] coll_metadata(*self)[j]).0 < coll_graph(
                        *self,
                    ).spec_next_id() by {
                        if j < coll_metadata(*self).len() - 1 {
                            assert(coll_metadata(*self)[j] == coll_metadata(pre2)[j]);
                        }
                    }
                }
                Result::Ok(id)
            },
            Option::None => {
                proof {
                    lemma_assoc_get_absent(coll_metadata(*self), id);
                    assert forall|j: int|
                        0 <= j < coll_metadata(*self).len() implies (
                    #[trigger] coll_metadata(*self)[j]).0 < coll_graph(
                        *self,
                    ).spec_next_id() by {
                        assert(coll_metadata(pre)[j].0 < coll_graph(pre).spec_next_id());
                    }
                }
                Result::Ok(id)
            },
        }
    }

    /// The number of vectors.
    pub fn len(&self) -> (r: usize)
        ensures
            r == graph_ids(coll_graph(*self)).len(),
    {
        self.index.len()
    }

    /// Whether the collection is empty.
    pub fn is_empty(&self) -> (r: bool)
        ensures
            r == (graph_ids(coll_graph(*self)).len() == 0),
    {
        self.index.is_empty()
    }

    fn metadata_for(&self, id: u64) -> (r: Option<&Val>)
        requires
            self.wf(),
        ensures
            match r {
                Option::Some(v) => assoc_get(coll_metadata(*self), id) == Option::Some(
                    v@,
                ),
                Option::None => assoc_get(coll_metadata(*self), id) is None,
            },
    {
        let ghost m = coll_metadata(*self);
        let mut k: usize = 0;
        while k < self.metadata.len()
            invariant
                m == coll_metadata(*self),
                k <= self.metadata@.len(),
                forall|j: int| 0 <= j < k ==> (#[trigger] m[j]).0 != id,
            decreases self.metadata@.len() - k,
        {
            if self.metadata[k].0 == id {
                proof {
                    lemma_assoc_get_found(m, id, k as int);
                }
                return Option::Some(&self.metadata[k].1);
            }
            k = k + 1;
        }
        proof {
            lemma_assoc_get_absent(m, id);
        }
        Option::None
    }

    /// The document for an id, with its metadata attached.
    pub fn get(&self, id: u64) -> (r: Option<VectorDocument>)
        requires
            self.wf(),
        ensures
            r is Some <==> graph_has(coll_graph(*self), id),
            r matches Option::Some(d) ==> d.id == id && (d.embedding
                matches Option::Some(e) && e@ == node_vec(coll_graph(*self), id))
                && d.metadata@ == (match assoc_get(coll_metadata(*self), id) {
                Option::Some(m) => m,
                Option::None => ValModel::Null,
            }) && (match d.text {
                Option::Some(s) => node_text(coll_graph(*self), id) == Option::Some(s@),
                Option::None => node_text(coll_graph(*self), id) is None,
            }),
    {
        let doc = match self.index.get(id) {
            Option::Some(d) => d,
            Option::None => {
                return Option::None;
            },
        };
        match self.metadata_for(id) {
            Option::Some(m) => Option::Some(doc.with_metadata(m.deep_clone())),
            Option::None => Option::Some(doc),
        }
    }

    /// Deletes a vector and its metadata.
    pub fn delete(&mut self, id: u64) -> (r: Result<bool, KeraDBError>)
        requires
            old(self).wf(),
        ensures
            final(self).wf(),
            final(self).spec_config() == old(self).spec_config(),
            r is Ok,
            match r {
                Result::Ok(b) => b == graph_has(coll_graph(*old(self)), id)
                    && !graph_has(coll_graph(*final(self)), id) && (b ==> forall|
                    x: u64,
                    l: int,
                |
                    !(#[trigger] node_neighbors(coll_graph(*final(self)), x, l)).contains(
                        id,
                    )),
                Result::Err(_) => false,
            },
    {
        // Drop the metadata entry, if any.
        let ghost m0 = coll_metadata(*self);
        let mut k: usize = 0;
        let mut found: Option<usize> = Option::None;
        while k < self.metadata.len()
            invariant
                m0 == coll_metadata(*self),
                self.wf(),
                k <= self.metadata@.len(),
                match found {
                    Option::Some(fi) => fi < m0.len() && m0[fi as int].0 == id,
                    Option::None => forall|j: int| 0 <= j < k ==> (#[trigger] m0[j]).0
                        != id,
                },
            decreases self.metadata@.len() - k,
        {
            if self.metadata[k].0 == id {
                found = Option::Some(k);
                break;
            }
            k = k + 1;
        }
        match found {
            Option::Some(fi) => {
                let ghost pre = *self;
                self.metadata.remove(fi);
                proof {
                    assert(coll_metadata(*self) =~= coll_metadata(pre).remove(fi as int));
                    assert forall|a: int, b: int|
                        0 <= a < b < coll_metadata(*self).len() implies (
                    #[trigger] coll_metadata(*self)[a]).0 != (#[trigger] coll_metadata(
                        *self,
                    )[b]).0 by {
                        let a2: int = if a < fi {
                            a
                        } else {
                            a + 1
                        };
                        let b2: int = if b < fi {
                            b
                        } else {
                            b + 1
                        };
                        assert(coll_metadata(*self)[a] == coll_metadata(pre)[a2]);
                        assert(coll_metadata(*self)[b] == coll_metadata(pre)[b2]);
                    }
                    assert forall|j: int|
                        0 <= j < coll_metadata(*self).len() implies (
                    #[trigger] coll_metadata(*self)[j]).0 < coll_graph(
                        *self,
                    ).spec_next_id() by {
                        let j2: int = if j < fi {
                            j
                        } else {
                            j + 1
                        };
                        assert(coll_metadata(*self)[j] == coll_metadata(pre)[j2]);
                        assert(coll_metadata(pre)[j2].0 < coll_graph(pre).spec_next_id());
                    }
                }
            },
            Option::None => {},
        }
        let ghost before_del = *self;
        let r = self.index.delete(id);
        proof {
            assert forall|j: int| 0 <= j < coll_metadata(*self).len() implies (
            #[trigger] coll_metadata(*self)[j]).0 < coll_graph(*self).spec_next_id() by {
                assert(coll_metadata(before_del)[j].0 < coll_graph(
                    before_del,
                ).spec_next_id());
            }
        }
        r
    }

    /// Builds ranked results from raw id/distance pairs, attaching each
    /// document and its metadata.
    fn build_search_results(&self, found: Vec<(u64, i64)>) -> (r: Vec<VectorSearchResult>)
        requires
            self.wf(),
            forall|i: int|
                0 <= i < found@.len() ==> graph_has(
                    coll_graph(*self),
                    (#[trigger] found@[i]).0,
                ),
        ensures
            r@.len() == found@.len(),
            forall|i: int|
                0 <= i < r@.len() ==> (#[trigger] r@[i]).document.id == found@[i].0
                    && r@[i].score == found@[i].1 && r@[i].rank == i,
            forall|i: int|
                0 <= i < r@.len() ==> (#[trigger] r@[i]).document.metadata@ == (
                match assoc_get(coll_metadata(*self), found@[i].0) {
                    Option::Some(m) => m,
                    Option::None => ValModel::Null,
                }),
            forall|i: int|
                0 <= i < r@.len() ==> ((#[trigger] r@[i]).document.embedding
                    matches Option::Some(e) && e@ == node_vec(
                    coll_graph(*self),
                    found@[i].0,
                )),
    {
        let mut out: Vec<VectorSearchResult> = Vec::new();
        let mut k: usize = 0;
        while k < found.len()
            invariant
                self.wf(),
                forall|i: int|
                    0 <= i < found@.len() ==> graph_has(
                        coll_graph(*self),
                        (#[trigger] found@[i]).0,
                    ),
                k <= found@.len(),
                out@.len() == k,
                forall|i: int|
                    0 <= i < k ==> (#[trigger] out@[i]).document.id == found@[i].0
                        && out@[i].score == found@[i].1 && out@[i].rank == i,
                forall|i: int|
                    0 <= i < k ==> (#[trigger] out@[i]).document.metadata@ == (
                    match assoc_get(coll_metadata(*self), found@[i].0) {
                        Option::Some(m) => m,
                        Option::None => ValModel::Null,
                    }),
                forall|i: int|
                    0 <= i < k ==> ((#[trigger] out@[i]).document.embedding
                        matches Option::Some(e) && e@ == node_vec(
                        coll_graph(*self),
                        found@[i].0,
                    )),
            decreases found@.len() - k,
        {
            let pair = found[k];
            let doc = match self.index.get(pair.0) {
                Option::Some(d) => d,
                Option::None => {
                    proof {
                        assert(false);
                    }
                    continue;
                },
            };
            let doc2 = match self.metadata_for(pair.0) {
                Option::Some(m) => doc.with_metadata(m.deep_clone()),
                Option::None => doc,
            };
            out.push(VectorSearchResult::new(doc2, pair.1, k));
            k = k + 1;
        }
        out
    }

    /// Searches by vector: the approximate nearest `k`, ranked.
    pub fn search(&self, query: &Vec<i64>, k: usize) -> (r: Result<
        Vec<VectorSearchResult>,
        KeraDBError,
    >)
        requires
            self.wf(),
        ensures
            r is Ok <==> (vec_ok(query@) && query@.len()
                == self.spec_config().dimensions),
            match r {
                Result::Ok(rs) => {
                    &&& rs@.len() <= k
                    &&& (graph_ids(coll_graph(*self)).len() > 0 && k >= 1 ==> rs@.len()
                        >= 1)
                    &&& (graph_ids(coll_graph(*self)).len() == 0 ==> rs@.len() == 0)
                    &&& results_exact(*self, query@, rs@)
                    &&& results_ranked(rs@)
                },
                Result::Err(e) => e is InvalidFormat,
            },
    {
        let found = match self.index.search(query, k) {
            Result::Ok(f) => f,
            Result::Err(e) => {
                return Result::Err(e);
            },
        };
        let rs = self.build_search_results(found);
        proof {
            assert forall|i: int, j: int|
                0 <= i < j < rs@.len() implies ((#[trigger] rs@[i]).score < (
            #[trigger] rs@[j]).score || (rs@[i].score == rs@[j].score
                && rs@[i].document.id <= rs@[j].document.id)) && rs@[i].document.id
                != rs@[j].document.id by {
                assert((found@[i]).1 < (found@[j]).1 || ((found@[i]).1 == (found@[j]).1
                    && (found@[i]).0 <= (found@[j]).0));
                assert((found@[i]).0 != (found@[j]).0);
            }
        }
        Result::Ok(rs)
    }

    /// Embeds a text through the configured provider and inserts the
    /// vector, the text and any metadata.
    pub fn insert_text(&mut self, text: &str, metadata: Option<Val>) -> (r: Result<
        u64,
        KeraDBError,
    >)
        requires
            old(self).wf(),
        ensures
            final(self).wf(),
            final(self).spec_config() == old(self).spec_config(),
            coll_name(*final(self)) == coll_name(*old(self)),
            coll_provider(*final(self)) == coll_provider(*old(self)),
            r is Ok <==> (coll_provider(*old(self)) matches Option::Some(p) && 1
                <= p.spec_dims() <= crate::distance::DIM_LIMIT && p.spec_dims()
                == old(self).spec_config().dimensions && coll_graph(
                *old(self),
            ).spec_next_id() < i64::MAX as u64),
            match r {
                Result::Ok(id) => {
                    &&& id == coll_graph(*old(self)).spec_next_id()
                    &&& graph_ids(coll_graph(*final(self))) == graph_ids(
                        coll_graph(*old(self)),
                    ).push(id)
                    &&& node_text(coll_graph(*final(self)), id) == Option::Some(text@)
                    &&& coll_metadata(*final(self)) == (match metadata {
                        Option::Some(m) => coll_metadata(*old(self)).push((id, m@)),
                        Option::None => coll_metadata(*old(self)),
                    })
                },
                Result::Err(e) => *final(self) == *old(self) && (e is InvalidFormat
                    || e is EmbeddingError),
            },
    {
        let provider = match &self.provider {
            Option::Some(p) => p,
            Option::None => {
                return Result::Err(
                    KeraDBError::InvalidFormat("No embedding provider configured".to_owned()),
                );
            },
        };
        let vector = match provider.embed(text) {
            Result::Ok(v) => v,
            Result::Err(e) => {
                return Result::Err(e);
            },
        };
        let ghost pre = *self;
        let id = match self.index.insert_with_metadata(vector, Option::Some(
            text.to_owned(),
        )) {
            Result::Ok(id) => id,
            Result::Err(e) => {
                return Result::Err(e);
            },
        };
        match metadata {
            Option::Some(m) => {
                let ghost pre2 = *self;
                let ghost gm = m@;
                self.metadata.push((id, m));
                proof {
                    assert(coll_metadata(*self) =~= coll_metadata(pre2).push((id, gm)));
                    assert forall|a: int, b: int|
                        0 <= a < b < coll_metadata(*self).len() implies (
                    #[trigger] coll_metadata(*self)[a]).0 != (#[trigger] coll_metadata(
                        *self,
                    )[b]).0 by {
                        if b < coll_metadata(*self).len() - 1 {
                            assert(coll_metadata(*self)[a] == coll_metadata(pre2)[a]);
                            assert(coll_metadata(*self)[b] == coll_metadata(pre2)[b]);
                        } else {
                            assert(coll_metadata(*self)[a] == coll_metadata(pre2)[a]);
                            assert(coll_metadata(pre)[a].0 < coll_graph(
                                pre,
                            ).spec_next_id());
                        }
                    }
                    assert forall|j: int|
                        0 <= j < coll_metadata(*self).len() implies (
                    #[trigger] coll_metadata(*self)[j]).0 < coll_graph(
                        *self,
                    ).spec_next_id() by {
                        if j < coll_metadata(*self).len() - 1 {
                            assert(coll_metadata(*self)[j] == coll_metadata(pre2)[j]);
                            assert(coll_metadata(pre)[j].0 < coll_graph(
                                pre,
                            ).spec_next_id());
                        }
                    }
                }
                Result::Ok(id)
            },
            Option::None => {
                proof {
                    assert forall|j: int|
                        0 <= j < coll_metadata(*self).len() implies (
                    #[trigger] coll_metadata(*self)[j]).0 < coll_graph(
                        *self,
                    ).spec_next_id() by {
                        assert(coll_metadata(pre)[j].0 < coll_graph(pre).spec_next_id());
                    }
                }
                Result::Ok(id)
            },
        }
    }

    /// Searches by text through the configured embedding provider: the
    /// query is embedded and the nearest `k` stored vectors returned,
    /// ranked, with their metadata attached.
    pub fn search_text(&self, query: &str, k: usize) -> (r: Result<
        Vec<VectorSearchResult>,
        KeraDBError,
    >)
        requires
            self.wf(),
        ensures
            r is Ok <==> (coll_provider(*self) matches Option::Some(p) && 1
                <= p.spec_dims() <= crate::distance::DIM_LIMIT && p.spec_dims()
                == self.spec_config().dimensions),
            match r {
                Result::Ok(rs) => {
                    &&& rs@.len() <= k
                    &&& (graph_ids(coll_graph(*self)).len() > 0 && k >= 1 ==> rs@.len()
                        >= 1)
                    &&& (graph_ids(coll_graph(*self)).len() == 0 ==> rs@.len() == 0)
                    &&& results_attached(*self, rs@)
                    &&& results_ranked(rs@)
                },
                Result::Err(_) => true,
            },
    {
        let provider = match &self.provider {
            Option::Some(p) => p,
            Option::None => {
                return Result::Err(
                    KeraDBError::InvalidFormat("No embedding provider configured".to_owned()),
                );
            },
        };
        let vector = match provider.embed(query) {
            Result::Ok(v) => v,
            Result::Err(e) => {
                return Result::Err(e);
            },
        };
        self.search(&vector, k)
    }

    /// Filtered search: over-fetches ten times `k` candidates, keeps
    /// those whose metadata satisfies the filter (documents without
    /// metadata pass), and returns at most `k`, ranked.  Every returned
    /// document with metadata satisfies the filter.
    pub fn search_filtered(&self, query: &Vec<i64>, k: usize, filter: &MetadataFilter)
        -> (r: Result<Vec<VectorSearchResult>, KeraDBError>)
        requires
            self.wf(),
            k <= usize::MAX / 10,
        ensures
            r is Ok <==> (vec_ok(query@) && query@.len()
                == self.spec_config().dimensions),
            match r {
                Result::Ok(rs) => {
                    &&& rs@.len() <= k
                    &&& forall|i: int|
                        0 <= i < rs@.len() ==> ((#[trigger] rs@[i]).document.metadata@
                            is Null || spec_filter_matches(
                            filter_model(*filter),
                            rs@[i].document.metadata@,
                        ))
                    &&& results_exact(*self, query@, rs@)
                    &&& results_ranked(rs@)
                },
                Result::Err(e) => e is InvalidFormat,
            },
    {
        let found = match self.index.search(query, k * 10) {
            Result::Ok(f) => f,
            Result::Err(e) => {
                return Result::Err(e);
            },
        };
        let mut kept: Vec<(u64, i64)> = Vec::new();
        let mut t: usize = 0;
        while t < found.len()
            invariant
                self.wf(),
                results_ok(coll_graph(*self), query@, found@),
                results_sorted(found@),
                results_distinct(found@),
                t <= found@.len(),
                kept@.len() <= k,
                forall|i: int|
                    0 <= i < kept@.len() ==> graph_has(
                        coll_graph(*self),
                        (#[trigger] kept@[i]).0,
                    ),
                forall|i: int|
                    0 <= i < kept@.len() ==> (match assoc_get(
                        coll_metadata(*self),
                        (#[trigger] kept@[i]).0,
                    ) {
                        Option::Some(m) => spec_filter_matches(filter_model(*filter), m),
                        Option::None => true,
                    }),
                forall|i: int|
                    0 <= i < kept@.len() ==> (#[trigger] kept@[i]).1 == spec_distance(
                        query@,
                        node_vec(coll_graph(*self), kept@[i].0),
                        self.spec_config().distance,
                    ),
                results_sorted(kept@),
                results_distinct(kept@),
                forall|i: int, u: int|
                    0 <= i < kept@.len() && t <= u < found@.len() ==> (((
                    #[trigger] kept@[i]).1 < (#[trigger] found@[u]).1 || (kept@[i].1
                        == found@[u].1 && kept@[i].0 <= found@[u].0)) && kept@[i].0
                        != found@[u].0),
            decreases found@.len() - t,
        {
            if kept.len() >= k {
                break;
            }
            let pair = found[t];
            let keep = match self.metadata_for(pair.0) {
                Option::Some(m) => filter.matches(m),
                Option::None => true,
            };
            if keep {
                kept.push(pair);
            }
            t = t + 1;
        }
        let rs = self.build_search_results(kept);
        proof {
            assert forall|i: int|
                0 <= i < rs@.len() implies ((#[trigger] rs@[i]).document.metadata@
                is Null || spec_filter_matches(
                filter_model(*filter),
                rs@[i].document.metadata@,
            )) by {
                match assoc_get(coll_metadata(*self), rs@[i].document.id) {
                    Option::Some(m) => {},
                    Option::None => {},
                }
            }
            assert forall|i: int, j: int|
                0 <= i < j < rs@.len() implies ((#[trigger] rs@[i]).score < (
            #[trigger] rs@[j]).score || (rs@[i].score == rs@[j].score
                && rs@[i].document.id <= rs@[j].document.id)) && rs@[i].document.id
                != rs@[j].document.id by {
                assert((kept@[i]).1 < (kept@[j]).1 || ((kept@[i]).1 == (kept@[j]).1
                    && (kept@[i]).0 <= (kept@[j]).0));
                assert((kept@[i]).0 != (kept@[j]).0);
            }
        }
        Result::Ok(rs)
    }

    /// The configuration the collection was created with.
    pub fn config(&self) -> (r: &VectorConfig)
        ensures
            *r == self.spec_config(),
    {
        self.index.config()
    }

    /// The collection's graph statistics.
    pub fn stats(&self) -> (r: HnswStats)
        requires
            self.wf(),
        ensures
            r.node_count == graph_ids(coll_graph(*self)).len(),
            r.dimensions == self.spec_config().dimensions,
            r.m == self.spec_config().m,
            r.ef_construction == self.spec_config().ef_construction,
    {
        self.index.stats()
    }
}

/// A collection as one JSON array: its name, its graph, and its
/// metadata table as id/value pairs.  The embedding provider is not
/// part of the image; a loaded collection starts without one.
pub closed spec fn coll_val_model(c: VectorCollection) -> ValModel {
    ValModel::Arr(
        seq![
            ValModel::Str(c.name@),
            hnsw_val_model(c.index),
            ValModel::Arr(
                Seq::new(
                    c.metadata@.len(),
                    |i: int| ValModel::Arr(
                        seq![
                            ValModel::Int(clamp_i64(c.metadata@[i].0 as int)),
                            val_model(c.metadata@[i].1),
                        ],
                    ),
                ),
            ),
        ],
    )
}

/// What serialising a collection yields: the canonical rendering of
/// its JSON model.
pub open spec fn spec_coll_bytes(c: VectorCollection) -> Seq<u8> {
    spec_render(coll_val_model(c))
}

impl VectorCollection {
    /// The collection as a JSON value.
    pub(crate) fn build_val(&self) -> (r: Val)
        ensures
            r@ == coll_val_model(*self),
    {
        let name_v = Val::Str(self.name.clone());
        let graph_v = self.index.build_val();
        let mut pairs: Vec<Val> = Vec::new();
        let mut k: usize = 0;
        while k < self.metadata.len()
            invariant
                k <= self.metadata@.len(),
                pairs@.len() == k,
                forall|j: int|
                    0 <= j < k ==> val_model(#[trigger] pairs@[j]) == ValModel::Arr(
                        seq![
                            ValModel::Int(clamp_i64(self.metadata@[j].0 as int)),
                            val_model(self.metadata@[j].1),
                        ],
                    ),
            decreases self.metadata@.len() - k,
        {
            let id_v = u64_int_val(self.metadata[k].0);
            let meta_v = self.metadata[k].1.deep_clone();
            let mut pair: Vec<Val> = Vec::new();
            pair.push(id_v);
            pair.push(meta_v);
            proof {
                lemma_val_models_len(pair@);
                assert forall|i: int| 0 <= i < pair@.len() implies #[trigger] val_models(
                    pair@,
                )[i] == val_model(pair@[i]) by {
                    lemma_val_models_index(pair@, i);
                }
                assert(val_models(pair@) =~= seq![
                    ValModel::Int(clamp_i64(self.metadata@[k as int].0 as int)),
                    val_model(self.metadata@[k as int].1),
                ]);
            }
            pairs.push(Val::Arr(pair));
            k = k + 1;
        }
        proof {
            lemma_val_models_len(pairs@);
            assert forall|i: int| 0 <= i < pairs@.len() implies #[trigger] val_models(
                pairs@,
            )[i] == val_model(pairs@[i]) by {
                lemma_val_models_index(pairs@, i);
            }
            assert(val_models(pairs@) =~= Seq::new(
                coll_metadata(*self).len(),
                |i: int| ValModel::Arr(
                    seq![
                        ValModel::Int(clamp_i64(self.metadata@[i].0 as int)),
                        val_model(self.metadata@[i].1),
                    ],
                ),
            ));
        }
        let pairs_v = Val::Arr(pairs);
        let mut items: Vec<Val> = Vec::new();
        items.push(name_v);
        items.push(graph_v);
        items.push(pairs_v);
        proof {
            lemma_val_models_len(items@);
            assert forall|i: int| 0 <= i < items@.len() implies #[trigger] val_models(
                items@,
            )[i] == val_model(items@[i]) by {
                lemma_val_models_index(items@, i);
            }
            assert(val_models(items@) =~= (match coll_val_model(*self) {
                ValModel::Arr(ms) => ms,
                _ => Seq::empty(),
            }));
        }
        Val::Arr(items)
    }

    /// Serialises the collection into its canonical byte image.
    pub fn to_bytes(&self) -> (r: Vec<u8>)
        ensures
            r@ == spec_coll_bytes(*self),
    {
        let v = self.build_val();
        crate::jsontext::render_to_bytes(&v)
    }

    /// Reads a collection back from its JSON value, validating every
    /// invariant; a returned collection is well-formed.
    pub(crate) fn from_val(top: &Val) -> (r: Result<VectorCollection, KeraDBError>)
        ensures
            r matches Result::Ok(c) ==> c.wf(),
    {
        let items = match top {
            Val::Arr(items) => items,
            _ => {
                return Result::Err(
                    KeraDBError::InvalidFormat("unreadable collection image".to_owned()),
                );
            },
        };
        if items.len() != 3 {
            return Result::Err(
                KeraDBError::InvalidFormat("unreadable collection image".to_owned()),
            );
        }
        let name = match &items[0] {
            Val::Str(s) => s.clone(),
            _ => {
                return Result::Err(
                    KeraDBError::InvalidFormat("unreadable collection image".to_owned()),
                );
            },
        };
        let index = match HnswIndex::from_val(&items[1]) {
            Result::Ok(g) => g,
            Result::Err(e) => {
                return Result::Err(e);
            },
        };
        let pairs_items = match &items[2] {
            Val::Arr(ps) => ps,
            _ => {
                return Result::Err(
                    KeraDBError::InvalidFormat("unreadable collection image".to_owned()),
                );
            },
        };
        let next_id = index.next_id_value();
        let mut metadata: Vec<(u64, Val)> = Vec::new();
        let mut k: usize = 0;
        while k < pairs_items.len()
            invariant
                k <= pairs_items@.len(),
                metadata@.len() == k,
                next_id <= i64::MAX as u64,
                forall|j: int| 0 <= j < k ==> (#[trigger] metadata@[j]).0 < next_id,
                forall|a: int, b: int|
                    0 <= a < b < k ==> (#[trigger] metadata@[a]).0 < (
                    #[trigger] metadata@[b]).0,
            decreases pairs_items@.len() - k,
        {
            let pair = match &pairs_items[k] {
                Val::Arr(p) => p,
                _ => {
                    return Result::Err(
                        KeraDBError::InvalidFormat(
                            "unreadable collection image".to_owned(),
                        ),
                    );
                },
            };
            if pair.len() != 2 {
                return Result::Err(
                    KeraDBError::InvalidFormat("unreadable collection image".to_owned()),
                );
            }
            let id = match &pair[0] {
                Val::Int(i) => if *i >= 0 {
                    *i as u64
                } else {
                    return Result::Err(
                        KeraDBError::InvalidFormat(
                            "unreadable collection image".to_owned(),
                        ),
                    );
                },
                _ => {
                    return Result::Err(
                        KeraDBError::InvalidFormat(
                            "unreadable collection image".to_owned(),
                        ),
                    );
                },
            };
            if id >= next_id {
                return Result::Err(
                    KeraDBError::InvalidFormat("unreadable collection image".to_owned()),
                );
            }
            if k > 0 {
                if id <= metadata[k - 1].0 {
                    return Result::Err(
                        KeraDBError::InvalidFormat(
                            "unreadable collection image".to_owned(),
                        ),
                    );
                }
            }
            metadata.push((id, pair[1].deep_clone()));
            k = k + 1;
        }
        let c = VectorCollection { name, index, metadata, provider: Option::None };
        proof {
            assert forall|a: int, b: int|
                0 <= a < b < coll_metadata(c).len() implies (
            #[trigger] coll_metadata(c)[a]).0 != (#[trigger] coll_metadata(c)[b]).0 by {
                assert(coll_metadata(c)[a].0 == c.metadata@[a].0);
                assert(coll_metadata(c)[b].0 == c.metadata@[b].0);
                assert(c.metadata@[a].0 < c.metadata@[b].0);
            }
            assert forall|j: int|
                0 <= j < coll_metadata(c).len() implies (#[trigger] coll_metadata(
                c,
            )[j]).0 < coll_graph(c).spec_next_id() by {
                assert(coll_metadata(c)[j].0 == c.metadata@[j].0);
            }
            assert(c.wf());
        }
        Result::Ok(c)
    }

    /// Reads a collection back from its byte image.  The image is
    /// validated in full: a returned collection satisfies the
    /// invariant and re-serialises to exactly the given bytes.
    pub fn from_bytes(bytes: &[u8]) -> (r: Result<VectorCollection, KeraDBError>)
        ensures
            r matches Result::Ok(c) ==> c.wf() && bytes@ == spec_coll_bytes(c),
    {
        let top = match crate::jsonparse::parse_document_bytes(bytes) {
            Option::Some(v) => v,
            Option::None => {
                return Result::Err(
                    KeraDBError::InvalidFormat("unreadable collection image".to_owned()),
                );
            },
        };
        let c = match Self::from_val(&top) {
            Result::Ok(c) => c,
            Result::Err(e) => {
                return Result::Err(e);
            },
        };
        let re = c.to_bytes();
        if !bytes_eq(bytes, re.as_slice()) {
            return Result::Err(
                KeraDBError::InvalidFormat("unreadable collection image".to_owned()),
            );
        }
        Result::Ok(c)
    }
}


} // verus!

//! The database facade: documents and vector collections behind one
//! handle.
//!
//! The handle owns the paged file image; the host application reads and
//! writes the actual file, exchanging whole byte images through
//! [`Database::file_image`] and [`Database::open_image`].

use vstd::prelude::*;
use crate::distance::vec_ok;
use crate::error::KeraDBError;
use crate::embedding::{EmbeddingConfig, ProviderKind, create_provider};
use crate::executor::{Executor, Config, insert_doc_invalid, given_doc_id, stored_fields,
    raw_page_doc, doc_fits, consistent, docs_unique, index_complete};
use crate::assoc::assoc_get;
use crate::hnsw::{graph_has, graph_ids, node_vec, node_text, node_neighbors};
use crate::index::Loc;
use crate::jsonval::{Val, ValModel, val_get, model_wf, val_model, val_models,
    lemma_val_models_len, lemma_val_models_index};
use crate::page::PAGE_OVERHEAD;
use crate::pager::Pager;
use crate::jsontext::spec_render;
use crate::search::{VectorCollection, coll_graph, coll_name, coll_metadata,
    coll_provider, results_exact, results_attached, results_ranked, coll_val_model};
use crate::serializer::Document;
use crate::strutil::str_eq;
use crate::vectypes::{VectorConfig, VectorDocument, VectorSearchResult, MetadataFilter,
    filter_model, spec_filter_matches, VectorCollectionStats};

verus! {

/// A database handle: the document executor and the vector collections.
pub struct Database {
    executor: Executor,
    vector_collections: Vec<(String, VectorCollection)>,
    embedding_provider: Option<EmbeddingConfig>,
}

/// The names of the vector collections, in creation order.
pub closed spec fn vc_names(db: Database) -> Seq<Seq<char>> {
    Seq::new(db.vector_collections@.len(), |i: int| db.vector_collections@[i].0@)
}

/// The embedding-provider choice new collections are created with.
pub closed spec fn db_provider(db: Database) -> Option<EmbeddingConfig> {
    db.embedding_provider
}

/// The vector collection stored under a name, if any.
pub closed spec fn db_coll(db: Database, name: Seq<char>) -> Option<VectorCollection> {
    if exists|i: int|
        0 <= i < db.vector_collections@.len() && (#[trigger] db.vector_collections@[i]).0@
            == name {
        let i = choose|i: int|
            0 <= i < db.vector_collections@.len() && (
            #[trigger] db.vector_collections@[i]).0@ == name;
        Option::Some(db.vector_collections@[i].1)
    } else {
        Option::None
    }
}

/// With unique names, the collection stored under the name at an index
/// is the one at that index.
proof fn lemma_db_coll_at(db: Database, i: int)
    requires
        forall|a: int, b: int|
            0 <= a < b < db.vector_collections@.len() ==> (
            #[trigger] db.vector_collections@[a]).0@ != (
            #[trigger] db.vector_collections@[b]).0@,
        0 <= i < db.vector_collections@.len(),
    ensures
        db_coll(db, db.vector_collections@[i].0@) == Option::Some(
            db.vector_collections@[i].1,
        ),
{
    let name = db.vector_collections@[i].0@;
    assert(exists|j: int|
        0 <= j < db.vector_collections@.len() && (#[trigger] db.vector_collections@[j]).0@
            == name);
    let j = choose|j: int|
        0 <= j < db.vector_collections@.len() && (#[trigger] db.vector_collections@[j]).0@
            == name;
    if j != i {
        if j < i {
            assert(db.vector_collections@[j].0@ != db.vector_collections@[i].0@);
        } else {
            assert(db.vector_collections@[i].0@ != db.vector_collections@[j].0@);
        }
    }
}

/// Replacing the collection at one index, or pushing a fresh name,
/// leaves every other name's lookup unchanged.
proof fn lemma_db_coll_other(pre: Database, post: Database, i: int, n: Seq<char>)
    requires
        forall|a: int, b: int|
            0 <= a < b < pre.vector_collections@.len() ==> (
            #[trigger] pre.vector_collections@[a]).0@ != (
            #[trigger] pre.vector_collections@[b]).0@,
        0 <= i <= pre.vector_collections@.len(),
        post.vector_collections@.len() == pre.vector_collections@.len() || (
        post.vector_collections@.len() == pre.vector_collections@.len() + 1 && i
            == pre.vector_collections@.len()),
        forall|j: int|
            0 <= j < pre.vector_collections@.len() && j != i
                ==> #[trigger] post.vector_collections@[j] == pre.vector_collections@[j],
        i < post.vector_collections@.len() ==> post.vector_collections@[i].0@ != n,
        i < pre.vector_collections@.len() ==> pre.vector_collections@[i].0@
            == post.vector_collections@[i].0@,
    ensures
        db_coll(post, n) == db_coll(pre, n),
{
    if exists|j: int|
        0 <= j < post.vector_collections@.len() && (
        #[trigger] post.vector_collections@[j]).0@ == n {
        let j = choose|j: int|
            0 <= j < post.vector_collections@.len() && (
            #[trigger] post.vector_collections@[j]).0@ == n;
        assert(j != i);
        assert(post.vector_collections@[j] == pre.vector_collections@[j]);
        assert(db_coll(pre, n) is Some);
        let j2 = choose|j2: int|
            0 <= j2 < pre.vector_collections@.len() && (
            #[trigger] pre.vector_collections@[j2]).0@ == n;
        if j2 != j {
            if j2 < j {
                assert(pre.vector_collections@[j2].0@ != pre.vector_collections@[j].0@);
            } else {
                assert(pre.vector_collections@[j].0@ != pre.vector_collections@[j2].0@);
            }
        }
    } else {
        if exists|j: int|
            0 <= j < pre.vector_collections@.len() && (
            #[trigger] pre.vector_collections@[j]).0@ == n {
            let j = choose|j: int|
                0 <= j < pre.vector_collections@.len() && (
                #[trigger] pre.vector_collections@[j]).0@ == n;
            assert(j != i);
            assert(post.vector_collections@[j].0@ == n);
            assert(false);
        }
    }
}

/// Removing the collection at one index drops its name's lookup and
/// leaves every other name's lookup unchanged.
proof fn lemma_db_coll_remove(pre: Database, post: Database, i: int)
    requires
        forall|a: int, b: int|
            0 <= a < b < pre.vector_collections@.len() ==> (
            #[trigger] pre.vector_collections@[a]).0@ != (
            #[trigger] pre.vector_collections@[b]).0@,
        0 <= i < pre.vector_collections@.len(),
        post.vector_collections@ == pre.vector_collections@.remove(i),
    ensures
        db_coll(post, pre.vector_collections@[i].0@) is None,
        forall|n: Seq<char>|
            n != pre.vector_collections@[i].0@ ==> db_coll(post, n) == db_coll(pre, n),
{
    let nm = pre.vector_collections@[i].0@;
    assert forall|j: int|
        0 <= j < post.vector_collections@.len() implies (
    #[trigger] post.vector_collections@[j]).0@ != nm by {
        let j2: int = if j < i {
            j
        } else {
            j + 1
        };
        assert(post.vector_collections@[j] == pre.vector_collections@[j2]);
        if pre.vector_collections@[j2].0@ == nm {
            if j2 < i {
                assert(pre.vector_collections@[j2].0@ != pre.vector_collections@[i].0@);
            } else {
                assert(pre.vector_collections@[i].0@ != pre.vector_collections@[j2].0@);
            }
        }
    }
    assert forall|n: Seq<char>|
        n != nm implies db_coll(post, n) == db_coll(pre, n) by {
        if exists|j: int|
            0 <= j < post.vector_collections@.len() && (
            #[trigger] post.vector_collections@[j]).0@ == n {
            let j = choose|j: int|
                0 <= j < post.vector_collections@.len() && (
                #[trigger] post.vector_collections@[j]).0@ == n;
            let j2: int = if j < i {
                j
            } else {
                j + 1
            };
            assert(post.vector_collections@[j] == pre.vector_collections@[j2]);
            assert(db_coll(pre, n) is Some);
            let j3 = choose|j3: int|
                0 <= j3 < pre.vector_collections@.len() && (
                #[trigger] pre.vector_collections@[j3]).0@ == n;
            if j3 != j2 {
                if j3 < j2 {
                    assert(pre.vector_collections@[j3].0@
                        != pre.vector_collections@[j2].0@);
                } else {
                    assert(pre.vector_collections@[j2].0@
                        != pre.vector_collections@[j3].0@);
                }
            }
        } else {
            if exists|j: int|
                0 <= j < pre.vector_collections@.len() && (
                #[trigger] pre.vector_collections@[j]).0@ == n {
                let j = choose|j: int|
                    0 <= j < pre.vector_collections@.len() && (
                    #[trigger] pre.vector_collections@[j]).0@ == n;
                assert(j != i);
                let j4: int = if j < i {
                    j
                } else {
                    j - 1
                };
                assert(post.vector_collections@[j4] == pre.vector_collections@[j]);
                assert(post.vector_collections@[j4].0@ == n);
                assert(false);
            }
        }
    }
}

impl Database {
    /// The underlying document executor state.
    pub closed spec fn spec_executor(self) -> Executor {
        self.executor
    }

    /// The locator the index holds for `(collection, id)`.
    pub open spec fn find_loc(self, c: Seq<char>, id: Seq<char>) -> Option<Loc> {
        self.spec_executor().find_loc(c, id)
    }

    /// The stored body of the document at `(collection, id)`.
    pub open spec fn body_at(self, c: Seq<char>, id: Seq<char>) -> ValModel {
        self.spec_executor().body_at(c, id)
    }

    /// The handle's invariant.
    pub closed spec fn wf(self) -> bool {
        &&& self.executor.wf()
        &&& forall|i: int, j: int|
            0 <= i < j < self.vector_collections@.len() ==> (
            #[trigger] self.vector_collections@[i]).0@ != (
            #[trigger] self.vector_collections@[j]).0@
        &&& forall|i: int|
            0 <= i < self.vector_collections@.len() ==> (
            #[trigger] self.vector_collections@[i]).1.wf()
    }

    /// A fresh database with the default configuration: empty, with no
    /// document under any collection and id and no vector collections.
    pub fn create() -> (r: Database)
        ensures
            r.wf(),
            r.spec_executor().wf(),
            crate::executor::consistent(r.spec_executor()),
            forall|c: Seq<char>, id: Seq<char>| #[trigger] r.find_loc(c, id) is None,
            r.spec_executor().collections_model().len() == 0,
            vc_names(r).len() == 0,
    {
        let config = Config::default();
        Self::create_with_config(config)
    }

    /// A fresh database.  The page size must hold a page header and a
    /// length-prefixed document, and fit the header field.
    pub fn create_with_config(config: Config) -> (r: Database)
        requires
            9 <= config.page_size <= u32::MAX,
        ensures
            r.wf(),
            r.spec_executor().wf(),
            crate::executor::consistent(r.spec_executor()),
            forall|c: Seq<char>, id: Seq<char>| #[trigger] r.find_loc(c, id) is None,
            r.spec_executor().collections_model().len() == 0,
            vc_names(r).len() == 0,
    {
        let pager = Pager::create(config.page_size);
        let executor = Executor::new(pager, config.cache_size);
        let r = Database {
            executor,
            vector_collections: Vec::new(),
            embedding_provider: Option::None,
        };
        proof {
            assert(vc_names(r) =~= Seq::<Seq<char>>::empty());
        }
        r
    }

    /// Opens a database from a file image: the header is validated, and
    /// the primary index is rebuilt by scanning every page.  Success is
    /// owed exactly on a validating header with a usable page size; a
    /// short or mistagged image is a format error, the right magic with
    /// another version a version mismatch.  The vector subsystem starts
    /// empty; see [`Database::load_vector_image`].
    pub fn open_image(bytes: &[u8], config: Config) -> (r: Result<Database, KeraDBError>)
        ensures
            r is Ok <==> (crate::page::header_ok(bytes@) && crate::page::header_page_size(
                bytes@,
            ) >= 9),
            r matches Result::Ok(db) ==> {
                &&& db.wf()
                &&& db.spec_executor().wf()
                &&& db.spec_executor().page_size() == crate::page::header_page_size(
                    bytes@,
                )
                &&& db.spec_executor().raw().len() == crate::page::header_page_count(
                    bytes@,
                )
                &&& forall|n: int|
                    0 <= n < db.spec_executor().raw().len()
                        ==> #[trigger] db.spec_executor().raw()[n] == crate::pager::chunk_at(
                        bytes@,
                        crate::page::header_page_size(bytes@) as int,
                        n,
                    )
                &&& (docs_unique(db.spec_executor().raw()) ==> consistent(
                    db.spec_executor(),
                ))
                &&& vc_names(db).len() == 0
                &&& db_provider(db) is None
            },
            r matches Result::Err(e) ==> {
                &&& (!crate::page::header_magic_ok(bytes@) ==> e is InvalidFormat)
                &&& (crate::page::header_magic_ok(bytes@) && !crate::page::header_ok(
                    bytes@,
                ) ==> (e matches KeraDBError::VersionMismatch { expected, actual }
                    && expected == crate::page::FORMAT_VERSION && actual
                    == crate::page::header_version(bytes@)))
                &&& (crate::page::header_ok(bytes@) ==> e is InvalidFormat
                    && crate::page::header_page_size(bytes@) < 9)
            },
    {
        let pager = match Pager::from_file_bytes(bytes) {
            Result::Ok(p) => p,
            Result::Err(e) => {
                return Result::Err(e);
            },
        };
        if pager.page_size() < 9 {
            return Result::Err(
                KeraDBError::InvalidFormat("page size too small".to_owned()),
            );
        }
        let executor = Executor::new(pager, config.cache_size);
        let db = Database {
            executor,
            vector_collections: Vec::new(),
            embedding_provider: Option::None,
        };
        proof {
            assert(vc_names(db) =~= Seq::<Seq<char>>::empty());
        }
        Result::Ok(db)
    }

    /// The whole document-file image, for the host to persist.
    pub fn file_image(&self) -> (r: Vec<u8>)
        requires
            self.wf(),
        ensures
            r@ == self.spec_executor().file_model(),
    {
        self.executor.to_file_bytes()
    }

    /// A well-formed handle's rendered image is owed a successful
    /// reopen: its header validates and declares a usable page size,
    /// exactly what [`Database::open_image`] requires for `Ok`.
    pub proof fn lemma_image_reopenable(self)
        requires
            self.wf(),
        ensures
            crate::page::header_ok(self.spec_executor().file_model()),
            crate::page::header_page_size(self.spec_executor().file_model()) >= 9,
    {
        self.executor.lemma_file_model_round_trip();
    }

    /// The persistence law at this handle.  Take a consistent database
    /// — creation yields one, and every document operation above
    /// preserves consistency (only a failed duplicate insert, which
    /// leaks its page, does not) — and a database opened from its
    /// rendered file image, as [`Database::open_image`] guarantees one:
    /// the reopened database holds exactly the same documents, the
    /// same `(collection, id)` pairs each with the same stored body,
    /// so whatever `find_by_id` returned before the round trip it
    /// returns after it.
    pub proof fn lemma_image_reopen(d1: Database, d2: Database)
        requires
            d1.wf(),
            consistent(d1.spec_executor()),
            d2.wf(),
            d2.spec_executor().page_size() == crate::page::header_page_size(
                d1.spec_executor().file_model(),
            ),
            d2.spec_executor().raw().len() == crate::page::header_page_count(
                d1.spec_executor().file_model(),
            ),
            forall|n: int|
                0 <= n < d2.spec_executor().raw().len()
                    ==> #[trigger] d2.spec_executor().raw()[n] == crate::pager::chunk_at(
                    d1.spec_executor().file_model(),
                    crate::page::header_page_size(d1.spec_executor().file_model()) as int,
                    n,
                ),
            docs_unique(d2.spec_executor().raw()) ==> consistent(d2.spec_executor()),
        ensures
            forall|c: Seq<char>, id: Seq<char>| #[trigger] d2.find_loc(c, id)
                == d1.find_loc(c, id),
            forall|c: Seq<char>, id: Seq<char>|
                #[trigger] d1.find_loc(c, id) is Some ==> d2.body_at(c, id) == d1.body_at(
                    c,
                    id,
                ),
    {
        d1.executor.lemma_file_model_round_trip();
        assert(d2.spec_executor().raw() =~= d1.spec_executor().raw());
        assert(docs_unique(d2.spec_executor().raw()));
        Executor::lemma_reopen_preserves_documents(d1.executor, d2.executor);
    }

    /// Inserts a document into a collection.  The facade restates the
    /// executor's contract: when success and each failure are owed, the
    /// stored body, and that a consistent store stays consistent, so
    /// the persistence law carries through this handle.
    pub fn insert(&mut self, collection: &str, data: Val) -> (r: Result<
        String,
        KeraDBError,
    >)
        requires
            old(self).wf(),
            model_wf(data@),
        ensures
            final(self).wf(),
            final(self).spec_executor().page_size() == old(
                self,
            ).spec_executor().page_size(),
            consistent(old(self).spec_executor()) ==> match r {
                Result::Err(e) => e is DuplicateKey || consistent(
                    final(self).spec_executor(),
                ),
                Result::Ok(_) => consistent(final(self).spec_executor()),
            },
            // With a fresh id, failure is owed only for a duplicate
            // (which a random id can hit), given room for the page and
            // an encoding that fits whatever id is drawn.
            (given_doc_id(data@) is None && !insert_doc_invalid(data@) && old(
                self,
            ).spec_executor().raw().len() < u32::MAX && data@ is Obj && doc_fits(
                crate::serializer::sample_uuid_id(),
                data@->Obj_0,
                collection@,
                old(self).spec_executor().page_size(),
            )) ==> (r is Ok || (r matches Result::Err(e) && e is DuplicateKey)),
            // With a caller-supplied id, success and the duplicate
            // error are owed exactly.
            match given_doc_id(data@) {
                Option::Some(s) => {
                    &&& (!insert_doc_invalid(data@) && old(self).spec_executor().raw().len()
                        < u32::MAX && doc_fits(
                        s,
                        data@->Obj_0,
                        collection@,
                        old(self).spec_executor().page_size(),
                    ) && old(self).find_loc(collection@, s) is Some ==> (r
                        matches Result::Err(e) && e is DuplicateKey))
                    &&& (!insert_doc_invalid(data@) && old(self).spec_executor().raw().len()
                        < u32::MAX && doc_fits(
                        s,
                        data@->Obj_0,
                        collection@,
                        old(self).spec_executor().page_size(),
                    ) && old(self).find_loc(collection@, s) is None ==> r is Ok)
                },
                Option::None => true,
            },
            // An encoding that cannot fit a page is owed the storage
            // error.
            (!insert_doc_invalid(data@) && !(match given_doc_id(data@) {
                Option::Some(s) => doc_fits(
                    s,
                    data@->Obj_0,
                    collection@,
                    old(self).spec_executor().page_size(),
                ),
                Option::None => doc_fits(
                    crate::serializer::sample_uuid_id(),
                    data@->Obj_0,
                    collection@,
                    old(self).spec_executor().page_size(),
                ),
            })) ==> (r matches Result::Err(e) && e is StorageError),
            // A duplicate-key failure is owed a witness: the collection
            // already held the id that was tried.
            (r matches Result::Err(e) && e is DuplicateKey) ==> (match given_doc_id(
                data@,
            ) {
                Option::Some(s) => old(self).find_loc(collection@, s) is Some,
                Option::None => exists|id2: Seq<char>|
                    crate::serializer::uuid_shape(id2) && (#[trigger] old(self).find_loc(
                        collection@,
                        id2,
                    )) is Some,
            }),
            (r matches Result::Err(e) && !(e is DuplicateKey)) ==> *final(self) == *old(
                self,
            ),
            match r {
                Result::Ok(id) => {
                    &&& data@ is Obj
                    &&& old(self).find_loc(collection@, id@) is None
                    &&& final(self).find_loc(collection@, id@) is Some
                    &&& final(self).body_at(collection@, id@) == ValModel::Obj(
                        stored_fields(data@->Obj_0, collection@),
                    )
                    &&& (match given_doc_id(data@) {
                        Option::Some(s) => s == id@,
                        Option::None => crate::serializer::uuid_shape(id@),
                    })
                    &&& forall|c2: Seq<char>, id2: Seq<char>|
                        !(c2 == collection@ && id2 == id@)
                            ==> #[trigger] final(self).find_loc(c2, id2) == old(
                            self,
                        ).find_loc(c2, id2)
                },
                Result::Err(e) => {
                    &&& (e is InvalidDocument || e is DuplicateKey || e is StorageError)
                    &&& (e is InvalidDocument <==> insert_doc_invalid(data@))
                    &&& forall|c2: Seq<char>, id2: Seq<char>|
                        #[trigger] final(self).find_loc(c2, id2) == old(self).find_loc(
                            c2,
                            id2,
                        )
                },
            },
    {
        let ghost pre = self.executor;
        let r = self.executor.insert(collection, data);
        proof {
            match &r {
                Result::Ok(id) => {
                    let n = pre.raw().len() as u32;
                    assert(self.executor.find_loc(collection@, id@) == Option::Some(
                        (n, 0usize),
                    ));
                    assert(raw_page_doc(self.executor.raw()[n as int]) is Some);
                    assert(self.executor.body_at(collection@, id@) == ValModel::Obj(
                        stored_fields(data@->Obj_0, collection@),
                    ));
                },
                Result::Err(e) => {
                    if e is DuplicateKey && given_doc_id(data@) is None {
                        let w = choose|id2: Seq<char>|
                            crate::serializer::uuid_shape(id2) && (#[trigger] pre.find_loc(
                                collection@,
                                id2,
                            )) is Some;
                        assert(old(self).find_loc(collection@, w) is Some);
                    }
                },
            }
        }
        r
    }

    /// Finds a document by id.
    pub fn find_by_id(&mut self, collection: &str, doc_id: &str) -> (r: Result<
        Document,
        KeraDBError,
    >)
        requires
            old(self).wf(),
        ensures
            final(self).wf(),
            consistent(old(self).spec_executor()) ==> consistent(
                final(self).spec_executor(),
            ),
            r is Ok <==> old(self).find_loc(collection@, doc_id@) is Some,
            forall|c2: Seq<char>, id2: Seq<char>| #[trigger]
                final(self).find_loc(c2, id2) == old(self).find_loc(c2, id2),
            match r {
                Result::Ok(doc) => doc.id@ == doc_id@ && doc.data@ == old(self).body_at(
                    collection@,
                    doc_id@,
                ),
                Result::Err(e) => e is DocumentNotFound,
            },
    {
        let r = self.executor.find_by_id(collection, doc_id);
        proof {
            match &r {
                Result::Ok(doc) => {
                    assert(old(self).spec_executor().find_loc(collection@, doc_id@)
                        is Some);
                },
                _ => {},
            }
        }
        r
    }

    /// Updates a document in place.  Success and each failure are owed
    /// exactly, as on the executor.
    pub fn update(&mut self, collection: &str, doc_id: &str, data: Val) -> (r: Result<
        Document,
        KeraDBError,
    >)
        requires
            old(self).wf(),
            model_wf(data@),
        ensures
            final(self).wf(),
            final(self).spec_executor().page_size() == old(
                self,
            ).spec_executor().page_size(),
            forall|c2: Seq<char>, id2: Seq<char>| #[trigger]
                final(self).find_loc(c2, id2) == old(self).find_loc(c2, id2),
            consistent(old(self).spec_executor()) ==> consistent(
                final(self).spec_executor(),
            ),
            r is Ok <==> (data@ is Obj && old(self).find_loc(collection@, doc_id@) is Some
                && doc_fits(
                doc_id@,
                data@->Obj_0,
                collection@,
                old(self).spec_executor().page_size(),
            )),
            match r {
                Result::Ok(doc) => {
                    &&& doc.id@ == doc_id@
                    &&& doc.data@ == ValModel::Obj(
                        stored_fields(data@->Obj_0, collection@),
                    )
                    &&& final(self).body_at(collection@, doc_id@) == doc.data@
                    &&& forall|c2: Seq<char>, id2: Seq<char>|
                        !(c2 == collection@ && id2 == doc_id@) ==> final(self).body_at(
                            c2,
                            id2,
                        ) == #[trigger] old(self).body_at(c2, id2)
                },
                Result::Err(e) => {
                    &&& (e is InvalidDocument <==> !(data@ is Obj))
                    &&& ((data@ is Obj && old(self).find_loc(collection@, doc_id@)
                        is None) <==> e is DocumentNotFound)
                    &&& (e is InvalidDocument || e is DocumentNotFound
                        || e is StorageError)
                },
            },
    {
        let ghost pre = *self;
        let r = self.executor.update(collection, doc_id, data);
        proof {
            match &r {
                Result::Ok(doc) => {
                    assert(self.executor.find_loc(collection@, doc_id@) == pre
                        .spec_executor().find_loc(collection@, doc_id@));
                },
                _ => {},
            }
        }
        r
    }

    /// Deletes a document, returning what was stored.
    pub fn delete(&mut self, collection: &str, doc_id: &str) -> (r: Result<
        Document,
        KeraDBError,
    >)
        requires
            old(self).wf(),
        ensures
            final(self).wf(),
            consistent(old(self).spec_executor()) ==> consistent(
                final(self).spec_executor(),
            ),
            r is Ok <==> old(self).find_loc(collection@, doc_id@) is Some,
            match r {
                Result::Ok(doc) => {
                    &&& doc.id@ == doc_id@
                    &&& doc.data@ == old(self).body_at(collection@, doc_id@)
                    &&& final(self).find_loc(collection@, doc_id@) is None
                    &&& forall|c2: Seq<char>, id2: Seq<char>|
                        !(c2 == collection@ && id2 == doc_id@)
                            ==> #[trigger] final(self).find_loc(c2, id2) == old(
                            self,
                        ).find_loc(c2, id2)
                },
                Result::Err(e) => e is DocumentNotFound && forall|c2: Seq<char>, id2: Seq<
                    char,
                >| #[trigger] final(self).find_loc(c2, id2) == old(self).find_loc(
                    c2,
                    id2,
                ),
            },
    {
        self.executor.delete(collection, doc_id)
    }

    /// All documents of a collection, in index order, after `skip` and
    /// at most `limit` of them.
    pub fn find_all(&mut self, collection: &str, limit: Option<usize>, skip: Option<usize>)
        -> (r: Result<Vec<Document>, KeraDBError>)
        requires
            old(self).wf(),
        ensures
            final(self).wf(),
            final(self).spec_executor().raw() == old(self).spec_executor().raw(),
            consistent(old(self).spec_executor()) ==> consistent(
                final(self).spec_executor(),
            ),
            forall|c2: Seq<char>, id2: Seq<char>| #[trigger]
                final(self).find_loc(c2, id2) == old(self).find_loc(c2, id2),
            r is Ok,
            match r {
                Result::Ok(docs) => {
                    let ids = old(self).spec_executor().ids_model(collection@);
                    let start = if (match skip {
                        Option::Some(s) => s as int,
                        Option::None => 0,
                    }) < ids.len() {
                        (match skip {
                            Option::Some(s) => s as int,
                            Option::None => 0,
                        })
                    } else {
                        ids.len() as int
                    };
                    let taken = ids.skip(start).take(
                        if (match limit {
                            Option::Some(l) => l as int,
                            Option::None => ids.len() as int,
                        }) < ids.len() - start {
                            (match limit {
                                Option::Some(l) => l as int,
                                Option::None => ids.len() as int,
                            })
                        } else {
                            ids.len() - start
                        },
                    );
                    &&& docs@.len() == taken.len()
                    &&& forall|i: int|
                        0 <= i < taken.len() ==> (#[trigger] docs@[i]).id@ == taken[i]
                    &&& forall|i: int|
                        0 <= i < taken.len() ==> (#[trigger] docs@[i]).data@ == old(
                            self,
                        ).body_at(collection@, taken[i])
                },
                Result::Err(_) => false,
            },
    {
        self.executor.find_all(collection, limit, skip)
    }

    /// How many documents a collection holds.
    pub fn count(&self, collection: &str) -> (r: usize)
        requires
            self.wf(),
        ensures
            r == self.spec_executor().ids_model(collection@).len(),
    {
        self.executor.count(collection)
    }

    /// Every collection name with its document count, in first-insert
    /// order.
    pub fn list_collections(&self) -> (r: Vec<(String, usize)>)
        requires
            self.wf(),
        ensures
            r@.len() == self.spec_executor().collections_model().len(),
            forall|i: int|
                0 <= i < r@.len() ==> (#[trigger] r@[i]).0@ == self.spec_executor(
                ).collections_model()[i] && r@[i].1 == self.spec_executor().ids_model(
                    self.spec_executor().collections_model()[i],
                ).len(),
    {
        self.executor.list_collections()
    }

    fn find_vc(&self, name: &str) -> (r: Option<usize>)
        requires
            self.wf(),
        ensures
            match r {
                Option::Some(i) => i < self.vector_collections@.len()
                    && self.vector_collections@[i as int].0@ == name@ && db_coll(
                    *self,
                    name@,
                ) == Option::Some(self.vector_collections@[i as int].1),
                Option::None => db_coll(*self, name@) is None && forall|i: int|
                    0 <= i < self.vector_collections@.len() ==> (
                    #[trigger] self.vector_collections@[i]).0@ != name@,
            },
    {
        let mut k: usize = 0;
        while k < self.vector_collections.len()
            invariant
                self.wf(),
                k <= self.vector_collections@.len(),
                forall|i: int|
                    0 <= i < k ==> (#[trigger] self.vector_collections@[i]).0@ != name@,
            decreases self.vector_collections@.len() - k,
        {
            if str_eq(self.vector_collections[k].0.as_str(), name) {
                proof {
                    lemma_db_coll_at(*self, k as int);
                }
                return Option::Some(k);
            }
            k = k + 1;
        }
        Option::None
    }

    /// Creates a vector collection.  Fails exactly when the name is
    /// taken or the configuration is unusable; on success an empty
    /// collection with that configuration appears under the name and
    /// nothing else changes.
    pub fn create_vector_collection(&mut self, name: &str, config: VectorConfig) -> (r:
        Result<(), KeraDBError>)
        requires
            old(self).wf(),
        ensures
            final(self).wf(),
            final(self).spec_executor() == old(self).spec_executor(),
            r is Ok <==> (config.wf() && db_coll(*old(self), name@) is None),
            r matches Result::Ok(_) ==> ({
                &&& vc_names(*final(self)) == vc_names(*old(self)).push(name@)
                &&& (db_coll(*final(self), name@) matches Option::Some(c)
                    && c.spec_config() == config && graph_ids(coll_graph(c)).len() == 0
                    && coll_graph(c).spec_next_id() == 0)
                &&& forall|n: Seq<char>|
                    n != name@ ==> db_coll(*final(self), n) == db_coll(*old(self), n)
            }),
            r matches Result::Err(e) ==> *final(self) == *old(self) && (e is VectorError
                || e is CollectionExists),
    {
        if !(config.dimensions >= 1 && config.dimensions
            <= crate::distance::DIM_LIMIT && config.m >= 2 && config.m <= 1024
            && config.ef_construction >= 1 && config.ef_construction <= 4096
            && config.ef_search >= 1 && config.ef_search <= 4096
            && config.compression.sparsity_threshold >= 0
            && config.compression.sparsity_threshold <= crate::distance::COORD_LIMIT
            && config.compression.max_density <= 100
            && config.compression.anchor_frequency >= 1) {
            return Result::Err(
                KeraDBError::VectorError("unusable vector configuration".to_owned()),
            );
        }
        match self.find_vc(name) {
            Option::Some(_) => {
                return Result::Err(KeraDBError::CollectionExists(name.to_owned()));
            },
            Option::None => {},
        }
        let coll = match &self.embedding_provider {
            Option::Some(cfg) => {
                let provider = match cfg {
                    EmbeddingConfig::Mock { dimensions } => create_provider(
                        EmbeddingConfig::Mock { dimensions: *dimensions },
                    ),
                    EmbeddingConfig::TfIdf { dimensions } => create_provider(
                        EmbeddingConfig::TfIdf { dimensions: *dimensions },
                    ),
                };
                match provider {
                    Result::Ok(p) => VectorCollection::with_embedding_provider(
                        name.to_owned(),
                        config,
                        p,
                    ),
                    Result::Err(_) => VectorCollection::new(name.to_owned(), config),
                }
            },
            Option::None => VectorCollection::new(name.to_owned(), config),
        };
        let ghost pre = *self;
        self.vector_collections.push((name.to_owned(), coll));
        proof {
            assert forall|i: int, j: int|
                0 <= i < j < self.vector_collections@.len() implies (
            #[trigger] self.vector_collections@[i]).0@ != (
            #[trigger] self.vector_collections@[j]).0@ by {
                if j < self.vector_collections@.len() - 1 {
                    assert(self.vector_collections@[i] == pre.vector_collections@[i]);
                    assert(self.vector_collections@[j] == pre.vector_collections@[j]);
                } else {
                    assert(self.vector_collections@[i] == pre.vector_collections@[i]);
                }
            }
            assert forall|i: int|
                0 <= i < self.vector_collections@.len() implies (
            #[trigger] self.vector_collections@[i]).1.wf() by {
                if i < self.vector_collections@.len() - 1 {
                    assert(self.vector_collections@[i] == pre.vector_collections@[i]);
                }
            }
            assert(vc_names(*self) =~= vc_names(pre).push(name@));
            lemma_db_coll_at(*self, self.vector_collections@.len() - 1);
            assert forall|n: Seq<char>|
                n != name@ implies db_coll(*self, n) == db_coll(pre, n) by {
                lemma_db_coll_other(pre, *self, pre.vector_collections@.len() as int, n);
            }
        }
        Result::Ok(())
    }

    /// Inserts a vector into a collection.  Succeeds exactly when the
    /// collection exists, the vector fits its configuration, and its id
    /// space is not exhausted.
    pub fn insert_vector(&mut self, collection: &str, vector: Vec<i64>,
        metadata: Option<Val>) -> (r: Result<u64, KeraDBError>)
        requires
            old(self).wf(),
        ensures
            final(self).wf(),
            final(self).spec_executor() == old(self).spec_executor(),
            vc_names(*final(self)) == vc_names(*old(self)),
            r is Ok <==> (db_coll(*old(self), collection@) matches Option::Some(c)
                && vec_ok(vector@) && vector@.len() == c.spec_config().dimensions
                && coll_graph(c).spec_next_id() < i64::MAX as u64),
            match r {
                Result::Ok(id) => (db_coll(*final(self), collection@)
                    matches Option::Some(c2) && {
                    &&& c2.spec_config() == db_coll(
                        *old(self),
                        collection@,
                    )->Some_0.spec_config()
                    &&& graph_has(coll_graph(c2), id)
                    &&& node_vec(coll_graph(c2), id) == vector@
                    &&& (match metadata {
                        Option::Some(m) => assoc_get(coll_metadata(c2), id)
                            == Option::Some(m@),
                        Option::None => assoc_get(coll_metadata(c2), id) is None,
                    })
                    &&& forall|n: Seq<char>|
                        n != collection@ ==> db_coll(*final(self), n) == db_coll(
                            *old(self),
                            n,
                        )
                }),
                Result::Err(e) => e is CollectionNotFound || e is InvalidFormat,
            },
    {
        let i = match self.find_vc(collection) {
            Option::Some(i) => i,
            Option::None => {
                return Result::Err(KeraDBError::CollectionNotFound(collection.to_owned()));
            },
        };
        let ghost pre = *self;
        let r = self.vector_collections[i].1.insert(vector, metadata);
        proof {
            assert forall|j: int|
                0 <= j < self.vector_collections@.len() implies (
            #[trigger] self.vector_collections@[j]).1.wf() by {
                if j != i {
                    assert(self.vector_collections@[j] == pre.vector_collections@[j]);
                }
            }
            assert forall|a: int, b: int|
                0 <= a < b < self.vector_collections@.len() implies (
            #[trigger] self.vector_collections@[a]).0@ != (
            #[trigger] self.vector_collections@[b]).0@ by {
                assert(self.vector_collections@[a].0 == pre.vector_collections@[a].0);
                assert(self.vector_collections@[b].0 == pre.vector_collections@[b].0);
            }
            assert(vc_names(*self) =~= vc_names(pre));
            assert(self.vector_collections@[i as int].0@ == collection@);
            lemma_db_coll_at(*self, i as int);
            assert forall|n: Seq<char>|
                n != collection@ implies db_coll(*self, n) == db_coll(pre, n) by {
                lemma_db_coll_other(pre, *self, i as int, n);
            }
        }
        r
    }

    /// Inserts text into a collection through its embedding provider.
    /// Succeeds exactly when the collection exists, a provider of the
    /// collection's dimensionality is configured, and the id space is
    /// not exhausted; the text is stored beside the vector.
    pub fn insert_text(&mut self, collection: &str, text: &str, metadata: Option<Val>)
        -> (r: Result<u64, KeraDBError>)
        requires
            old(self).wf(),
        ensures
            final(self).wf(),
            final(self).spec_executor() == old(self).spec_executor(),
            vc_names(*final(self)) == vc_names(*old(self)),
            r is Ok <==> (db_coll(*old(self), collection@) matches Option::Some(c) && (
            coll_provider(c) matches Option::Some(p) && 1 <= p.spec_dims()
                <= crate::distance::DIM_LIMIT && p.spec_dims()
                == c.spec_config().dimensions && coll_graph(c).spec_next_id()
                < i64::MAX as u64)),
            match r {
                Result::Ok(id) => (db_coll(*old(self), collection@)
                    matches Option::Some(c) && db_coll(*final(self), collection@)
                    matches Option::Some(c2) && {
                    &&& id == coll_graph(c).spec_next_id()
                    &&& graph_ids(coll_graph(c2)) == graph_ids(coll_graph(c)).push(id)
                    &&& node_text(coll_graph(c2), id) == Option::Some(text@)
                    &&& coll_metadata(c2) == (match metadata {
                        Option::Some(m) => coll_metadata(c).push((id, m@)),
                        Option::None => coll_metadata(c),
                    })
                    &&& forall|n: Seq<char>|
                        n != collection@ ==> db_coll(*final(self), n) == db_coll(
                            *old(self),
                            n,
                        )
                }),
                Result::Err(e) => e is CollectionNotFound || e is InvalidFormat
                    || e is EmbeddingError,
            },
    {
        let i = match self.find_vc(collection) {
            Option::Some(i) => i,
            Option::None => {
                return Result::Err(KeraDBError::CollectionNotFound(collection.to_owned()));
            },
        };
        let ghost pre = *self;
        let r = self.vector_collections[i].1.insert_text(text, metadata);
        proof {
            assert forall|j: int|
                0 <= j < self.vector_collections@.len() implies (
            #[trigger] self.vector_collections@[j]).1.wf() by {
                if j != i {
                    assert(self.vector_collections@[j] == pre.vector_collections@[j]);
                }
            }
            assert forall|a: int, b: int|
                0 <= a < b < self.vector_collections@.len() implies (
            #[trigger] self.vector_collections@[a]).0@ != (
            #[trigger] self.vector_collections@[b]).0@ by {
                assert(self.vector_collections@[a].0 == pre.vector_collections@[a].0);
                assert(self.vector_collections@[b].0 == pre.vector_collections@[b].0);
            }
            assert(vc_names(*self) =~= vc_names(pre));
            assert(self.vector_collections@[i as int].0@ == collection@);
            lemma_db_coll_at(*self, i as int);
            assert forall|n: Seq<char>|
                n != collection@ implies db_coll(*self, n) == db_coll(pre, n) by {
                lemma_db_coll_other(pre, *self, i as int, n);
            }
        }
        r
    }

    /// Searches a collection by vector: the approximate nearest `k`,
    /// ranked, with exact scores and the stored metadata attached.
    pub fn vector_search(&self, collection: &str, query: &Vec<i64>, k: usize) -> (r:
        Result<Vec<VectorSearchResult>, KeraDBError>)
        requires
            self.wf(),
        ensures
            r is Ok <==> (db_coll(*self, collection@) matches Option::Some(c) && vec_ok(
                query@,
            ) && query@.len() == c.spec_config().dimensions),
            match r {
                Result::Ok(rs) => (db_coll(*self, collection@) matches Option::Some(c)
                    && {
                    &&& rs@.len() <= k
                    &&& (graph_ids(coll_graph(c)).len() > 0 && k >= 1 ==> rs@.len() >= 1)
                    &&& (graph_ids(coll_graph(c)).len() == 0 ==> rs@.len() == 0)
                    &&& results_exact(c, query@, rs@)
                    &&& results_ranked(rs@)
                }),
                Result::Err(e) => e is CollectionNotFound || e is InvalidFormat,
            },
    {
        let i = match self.find_vc(collection) {
            Option::Some(i) => i,
            Option::None => {
                return Result::Err(KeraDBError::CollectionNotFound(collection.to_owned()));
            },
        };
        self.vector_collections[i].1.search(query, k)
    }

    /// Searches a collection by text through its embedding provider:
    /// the query is embedded and the nearest `k` returned, ranked.
    pub fn vector_search_text(&self, collection: &str, query: &str, k: usize) -> (r:
        Result<Vec<VectorSearchResult>, KeraDBError>)
        requires
            self.wf(),
        ensures
            r is Ok <==> (db_coll(*self, collection@) matches Option::Some(c) && (
            coll_provider(c) matches Option::Some(p) && 1 <= p.spec_dims()
                <= crate::distance::DIM_LIMIT && p.spec_dims()
                == c.spec_config().dimensions)),
            match r {
                Result::Ok(rs) => (db_coll(*self, collection@) matches Option::Some(c)
                    && {
                    &&& rs@.len() <= k
                    &&& (graph_ids(coll_graph(c)).len() > 0 && k >= 1 ==> rs@.len() >= 1)
                    &&& (graph_ids(coll_graph(c)).len() == 0 ==> rs@.len() == 0)
                    &&& results_attached(c, rs@)
                    &&& results_ranked(rs@)
                }),
                Result::Err(_) => true,
            },
    {
        let i = match self.find_vc(collection) {
            Option::Some(i) => i,
            Option::None => {
                return Result::Err(KeraDBError::CollectionNotFound(collection.to_owned()));
            },
        };
        self.vector_collections[i].1.search_text(query, k)
    }

    /// Filtered search: every returned document either carries no
    /// metadata or satisfies the filter.
    pub fn vector_search_filtered(&self, collection: &str, query: &Vec<i64>, k: usize,
        filter: &MetadataFilter) -> (r: Result<Vec<VectorSearchResult>, KeraDBError>)
        requires
            self.wf(),
            k <= usize::MAX / 10,
        ensures
            r is Ok <==> (db_coll(*self, collection@) matches Option::Some(c) && vec_ok(
                query@,
            ) && query@.len() == c.spec_config().dimensions),
            match r {
                Result::Ok(rs) => (db_coll(*self, collection@) matches Option::Some(c)
                    && {
                    &&& rs@.len() <= k
                    &&& forall|i: int|
                        0 <= i < rs@.len() ==> ((#[trigger] rs@[i]).document.metadata@
                            is Null || spec_filter_matches(
                            filter_model(*filter),
                            rs@[i].document.metadata@,
                        ))
                    &&& results_exact(c, query@, rs@)
                    &&& results_ranked(rs@)
                }),
                Result::Err(e) => e is CollectionNotFound || e is InvalidFormat,
            },
    {
        let i = match self.find_vc(collection) {
            Option::Some(i) => i,
            Option::None => {
                return Result::Err(KeraDBError::CollectionNotFound(collection.to_owned()));
            },
        };
        self.vector_collections[i].1.search_filtered(query, k, filter)
    }

    /// The document stored for a vector id: its vector, its source
    /// text if any, and no metadata attachment.
    pub fn get_vector(&self, collection: &str, id: u64) -> (r: Result<
        Option<VectorDocument>,
        KeraDBError,
    >)
        requires
            self.wf(),
        ensures
            r is Ok <==> db_coll(*self, collection@) is Some,
            match r {
                Result::Ok(o) => (db_coll(*self, collection@) matches Option::Some(c)
                    && (o is Some <==> graph_has(coll_graph(c), id)) && (o
                    matches Option::Some(d) ==> d.id == id && (d.embedding
                    matches Option::Some(e) && e@ == node_vec(coll_graph(c), id))
                    && d.metadata@ == (match assoc_get(coll_metadata(c), id) {
                    Option::Some(m) => m,
                    Option::None => crate::jsonval::ValModel::Null,
                }) && (match d.text {
                    Option::Some(s) => node_text(coll_graph(c), id) == Option::Some(s@),
                    Option::None => node_text(coll_graph(c), id) is None,
                }))),
                Result::Err(e) => e is CollectionNotFound,
            },
    {
        let i = match self.find_vc(collection) {
            Option::Some(i) => i,
            Option::None => {
                return Result::Err(KeraDBError::CollectionNotFound(collection.to_owned()));
            },
        };
        Result::Ok(self.vector_collections[i].1.get(id))
    }

    /// Deletes a vector from a collection; returns whether it was
    /// present.  Fails exactly when the collection does not exist.
    pub fn delete_vector(&mut self, collection: &str, id: u64) -> (r: Result<
        bool,
        KeraDBError,
    >)
        requires
            old(self).wf(),
        ensures
            final(self).wf(),
            final(self).spec_executor() == old(self).spec_executor(),
            vc_names(*final(self)) == vc_names(*old(self)),
            r is Ok <==> db_coll(*old(self), collection@) is Some,
            match r {
                Result::Ok(b) => (db_coll(*old(self), collection@)
                    matches Option::Some(c) && db_coll(*final(self), collection@)
                    matches Option::Some(c2) && {
                    &&& b == graph_has(coll_graph(c), id)
                    &&& !graph_has(coll_graph(c2), id)
                    &&& (b ==> forall|x: u64, l: int|
                        !(#[trigger] node_neighbors(coll_graph(c2), x, l)).contains(id))
                    &&& c2.spec_config() == c.spec_config()
                    &&& forall|n: Seq<char>|
                        n != collection@ ==> db_coll(*final(self), n) == db_coll(
                            *old(self),
                            n,
                        )
                }),
                Result::Err(e) => e is CollectionNotFound && *final(self) == *old(self),
            },
    {
        let i = match self.find_vc(collection) {
            Option::Some(i) => i,
            Option::None => {
                return Result::Err(KeraDBError::CollectionNotFound(collection.to_owned()));
            },
        };
        let ghost pre = *self;
        let r = self.vector_collections[i].1.delete(id);
        proof {
            assert forall|j: int|
                0 <= j < self.vector_collections@.len() implies (
            #[trigger] self.vector_collections@[j]).1.wf() by {
                if j != i {
                    assert(self.vector_collections@[j] == pre.vector_collections@[j]);
                }
            }
            assert forall|a: int, b: int|
                0 <= a < b < self.vector_collections@.len() implies (
            #[trigger] self.vector_collections@[a]).0@ != (
            #[trigger] self.vector_collections@[b]).0@ by {
                assert(self.vector_collections@[a].0 == pre.vector_collections@[a].0);
                assert(self.vector_collections@[b].0 == pre.vector_collections@[b].0);
            }
            assert(vc_names(*self) =~= vc_names(pre));
            assert(self.vector_collections@[i as int].0@ == collection@);
            lemma_db_coll_at(*self, i as int);
            assert forall|n: Seq<char>|
                n != collection@ implies db_coll(*self, n) == db_coll(pre, n) by {
                lemma_db_coll_other(pre, *self, i as int, n);
            }
        }
        r
    }

    /// Every vector collection name with its size, in creation order.
    pub fn list_vector_collections(&self) -> (r: Vec<(String, usize)>)
        requires
            self.wf(),
        ensures
            r@.len() == vc_names(*self).len(),
            forall|i: int|
                0 <= i < r@.len() ==> (#[trigger] r@[i]).0@ == vc_names(*self)[i] && (
                db_coll(*self, vc_names(*self)[i]) matches Option::Some(c) && r@[i].1
                    == graph_ids(coll_graph(c)).len()),
    {
        let mut out: Vec<(String, usize)> = Vec::new();
        let mut k: usize = 0;
        while k < self.vector_collections.len()
            invariant
                self.wf(),
                k <= self.vector_collections@.len(),
                out@.len() == k,
                forall|i: int|
                    0 <= i < k ==> (#[trigger] out@[i]).0@ == vc_names(*self)[i] && (
                    db_coll(*self, vc_names(*self)[i]) matches Option::Some(c)
                        && out@[i].1 == graph_ids(coll_graph(c)).len()),
            decreases self.vector_collections@.len() - k,
        {
            let name = self.vector_collections[k].0.clone();
            let n = self.vector_collections[k].1.len();
            proof {
                lemma_db_coll_at(*self, k as int);
                assert(vc_names(*self)[k as int] == self.vector_collections@[
                    k as int].0@);
            }
            out.push((name, n));
            k = k + 1;
        }
        out
    }

    /// Drops a vector collection; returns whether it existed.  Nothing
    /// else changes.
    pub fn drop_vector_collection(&mut self, name: &str) -> (r: Result<bool, KeraDBError>)
        requires
            old(self).wf(),
        ensures
            final(self).wf(),
            final(self).spec_executor() == old(self).spec_executor(),
            r is Ok,
            match r {
                Result::Ok(b) => {
                    &&& b == (db_coll(*old(self), name@) is Some)
                    &&& db_coll(*final(self), name@) is None
                    &&& forall|n: Seq<char>|
                        n != name@ ==> db_coll(*final(self), n) == db_coll(*old(self), n)
                    &&& !b ==> *final(self) == *old(self)
                },
                Result::Err(_) => false,
            },
    {
        match self.find_vc(name) {
            Option::Some(i) => {
                let ghost pre = *self;
                self.vector_collections.remove(i);
                proof {
                    lemma_db_coll_remove(pre, *self, i as int);
                    assert forall|a: int, b: int|
                        0 <= a < b < self.vector_collections@.len() implies (
                    #[trigger] self.vector_collections@[a]).0@ != (
                    #[trigger] self.vector_collections@[b]).0@ by {
                        let a2: int = if a < i {
                            a
                        } else {
                            a + 1
                        };
                        let b2: int = if b < i {
                            b
                        } else {
                            b + 1
                        };
                        assert(self.vector_collections@[a] == pre.vector_collections@[a2]);
                        assert(self.vector_collections@[b] == pre.vector_collections@[b2]);
                    }
                    assert forall|j: int|
                        0 <= j < self.vector_collections@.len() implies (
                    #[trigger] self.vector_collections@[j]).1.wf() by {
                        let j2: int = if j < i {
                            j
                        } else {
                            j + 1
                        };
                        assert(self.vector_collections@[j] == pre.vector_collections@[j2]);
                    }
                }
                Result::Ok(true)
            },
            Option::None => Result::Ok(false),
        }
    }

    /// Chooses the embedding provider used by collections created from
    /// now on.
    pub fn set_embedding_provider(&mut self, config: EmbeddingConfig) -> (r: Result<
        (),
        KeraDBError,
    >)
        requires
            old(self).wf(),
        ensures
            final(self).wf(),
            final(self).spec_executor() == old(self).spec_executor(),
            vc_names(*final(self)) == vc_names(*old(self)),
            forall|n: Seq<char>| #[trigger] db_coll(*final(self), n) == db_coll(
                *old(self),
                n,
            ),
            db_provider(*final(self)) == Option::Some(config),
            r is Ok,
    {
        let ghost pre = *self;
        self.embedding_provider = Option::Some(config);
        proof {
            assert(vc_names(*self) =~= vc_names(pre));
            assert forall|n: Seq<char>| #[trigger] db_coll(*self, n) == db_coll(
                pre,
                n,
            ) by {
                lemma_db_coll_other(pre, *self, pre.vector_collections@.len() as int, n);
            }
        }
        Result::Ok(())
    }

    /// Statistics for one vector collection: its true size and the
    /// configuration it was created with.
    pub fn vector_stats(&self, collection: &str) -> (r: Result<
        VectorCollectionStats,
        KeraDBError,
    >)
        requires
            self.wf(),
        ensures
            r is Ok <==> db_coll(*self, collection@) is Some,
            match r {
                Result::Ok(st) => (db_coll(*self, collection@) matches Option::Some(c)
                    && {
                    &&& st.name@ == collection@
                    &&& st.vector_count == graph_ids(coll_graph(c)).len()
                    &&& st.dimensions == c.spec_config().dimensions
                    &&& st.distance == c.spec_config().distance
                    &&& st.lazy_embedding == c.spec_config().lazy_embedding
                    &&& st.compression_mode == c.spec_config().compression.mode
                }),
                Result::Err(e) => e is CollectionNotFound,
            },
    {
        let i = match self.find_vc(collection) {
            Option::Some(i) => i,
            Option::None => {
                return Result::Err(KeraDBError::CollectionNotFound(collection.to_owned()));
            },
        };
        let coll = &self.vector_collections[i].1;
        let st = coll.stats();
        let cfg = coll.config();
        let cfg_dims = st.dimensions;
        Result::Ok(
            VectorCollectionStats {
                name: self.vector_collections[i].0.clone(),
                vector_count: st.node_count,
                dimensions: cfg_dims,
                distance: cfg.distance,
                memory_bytes: match st.node_count.checked_mul(
                    match cfg_dims.checked_mul(8) {
                        Option::Some(x) => x,
                        Option::None => usize::MAX,
                    },
                ) {
                    Option::Some(x) => x,
                    Option::None => usize::MAX,
                },
                hnsw_layers: st.max_layer,
                lazy_embedding: cfg.lazy_embedding,
                compression_mode: cfg.compression.mode,
                compression_ratio: 0,
                anchor_count: 0,
                delta_count: 0,
            },
        )
    }
}

/// The byte image of the vector subsystem: a versioned container, one
/// JSON array holding the format version and the image of every
/// collection, in creation order.
pub closed spec fn spec_vec_image(db: Database) -> Seq<u8> {
    spec_render(
        ValModel::Arr(
            seq![
                ValModel::Int(VEC_IMAGE_VERSION as int),
                ValModel::Arr(
                    Seq::new(
                        db.vector_collections@.len(),
                        |i: int| coll_val_model(db.vector_collections@[i].1),
                    ),
                ),
            ],
        ),
    )
}

/// The format version of the vector side-file container.
pub const VEC_IMAGE_VERSION: i64 = 1;

impl Database {
    /// The byte image of the vector subsystem, or nothing when no
    /// vector collection exists.  The document store is not part of
    /// the image; see [`Database::file_image`] for it.
    pub fn vector_image(&self) -> (r: Option<Vec<u8>>)
        requires
            self.wf(),
        ensures
            r is Some <==> vc_names(*self).len() > 0,
            r matches Option::Some(b) ==> b@ == spec_vec_image(*self),
    {
        if self.vector_collections.len() == 0 {
            return Option::None;
        }
        let mut items: Vec<Val> = Vec::new();
        let mut k: usize = 0;
        while k < self.vector_collections.len()
            invariant
                k <= self.vector_collections@.len(),
                items@.len() == k,
                forall|j: int|
                    0 <= j < k ==> val_model(#[trigger] items@[j]) == coll_val_model(
                        self.vector_collections@[j].1,
                    ),
            decreases self.vector_collections@.len() - k,
        {
            items.push(self.vector_collections[k].1.build_val());
            k = k + 1;
        }
        proof {
            lemma_val_models_len(items@);
            assert forall|i: int| 0 <= i < items@.len() implies #[trigger] val_models(
                items@,
            )[i] == coll_val_model(self.vector_collections@[i].1) by {
                lemma_val_models_index(items@, i);
            }
            assert(val_models(items@) =~= Seq::new(
                self.vector_collections@.len(),
                |i: int| coll_val_model(self.vector_collections@[i].1),
            ));
        }
        let mut outer: Vec<Val> = Vec::new();
        outer.push(Val::Int(VEC_IMAGE_VERSION));
        outer.push(Val::Arr(items));
        proof {
            lemma_val_models_len(outer@);
            assert forall|i: int| 0 <= i < outer@.len() implies #[trigger] val_models(
                outer@,
            )[i] == val_model(outer@[i]) by {
                lemma_val_models_index(outer@, i);
            }
            assert(val_models(outer@) =~= seq![
                ValModel::Int(VEC_IMAGE_VERSION as int),
                ValModel::Arr(
                    Seq::new(
                        self.vector_collections@.len(),
                        |i: int| coll_val_model(self.vector_collections@[i].1),
                    ),
                ),
            ]);
        }
        Option::Some(crate::jsontext::render_to_bytes(&Val::Arr(outer)))
    }

    /// Loads the vector subsystem from a byte image, replacing the
    /// current collections.  The image is validated in full: anything
    /// unreadable, invalid, or not re-serialising to the given bytes
    /// leaves the subsystem empty.  The document store is untouched.
    pub fn load_vector_image(&mut self, bytes: &[u8])
        requires
            old(self).wf(),
        ensures
            final(self).wf(),
            final(self).spec_executor() == old(self).spec_executor(),
            db_provider(*final(self)) == db_provider(*old(self)),
            vc_names(*final(self)).len() == 0 || bytes@ == spec_vec_image(*final(self)),
    {
        self.vector_collections = Vec::new();
        let top = match crate::jsonparse::parse_document_bytes(bytes) {
            Option::Some(v) => v,
            Option::None => {
                return;
            },
        };
        // The versioned container: the format version, then the
        // collection images.
        let parts = match top {
            Val::Arr(ps) => ps,
            _ => {
                return;
            },
        };
        if parts.len() != 2 {
            return;
        }
        match &parts[0] {
            Val::Int(v) => if *v != VEC_IMAGE_VERSION {
                return;
            },
            _ => {
                return;
            },
        }
        let blocks = match &parts[1] {
            Val::Arr(bs) => bs,
            _ => {
                return;
            },
        };
        let mut k: usize = 0;
        while k < blocks.len()
            invariant
                k <= blocks@.len(),
                self.executor == old(self).executor,
                self.embedding_provider == old(self).embedding_provider,
                self.executor.wf(),
                self.vector_collections@.len() == k,
                forall|j: int|
                    0 <= j < k ==> (#[trigger] self.vector_collections@[j]).1.wf(),
                forall|j: int|
                    0 <= j < k ==> (#[trigger] self.vector_collections@[j]).0@
                        == coll_name(self.vector_collections@[j].1),
                forall|a: int, b: int|
                    0 <= a < b < k ==> (#[trigger] self.vector_collections@[a]).0@ != (
                    #[trigger] self.vector_collections@[b]).0@,
            decreases blocks@.len() - k,
        {
            let c = match VectorCollection::from_val(&blocks[k]) {
                Result::Ok(c) => c,
                Result::Err(_) => {
                    self.vector_collections = Vec::new();
                    return;
                },
            };
            // Reject an image with two collections of one name.
            let mut t2: usize = 0;
            while t2 < self.vector_collections.len()
                invariant
                    t2 <= self.vector_collections@.len(),
                    self.executor == old(self).executor,
                    self.embedding_provider == old(self).embedding_provider,
                    self.executor.wf(),
                    self.vector_collections@.len() == k,
                    forall|j: int|
                        0 <= j < k ==> (#[trigger] self.vector_collections@[j]).1.wf(),
                    forall|j: int|
                        0 <= j < k ==> (#[trigger] self.vector_collections@[j]).0@
                            == coll_name(self.vector_collections@[j].1),
                    forall|a: int, b: int|
                        0 <= a < b < k ==> (#[trigger] self.vector_collections@[a]).0@
                            != (#[trigger] self.vector_collections@[b]).0@,
                    forall|j: int|
                        0 <= j < t2 ==> (#[trigger] self.vector_collections@[j]).0@
                            != coll_name(c),
                decreases self.vector_collections@.len() - t2,
            {
                if str_eq(self.vector_collections[t2].0.as_str(), c.name_str()) {
                    self.vector_collections = Vec::new();
                    return;
                }
                t2 = t2 + 1;
            }
            let nm = c.name_string();
            self.vector_collections.push((nm, c));
            k = k + 1;
        }
        // The loaded state must re-serialise to exactly the image.
        let re = match self.vector_image() {
            Option::Some(b) => b,
            Option::None => {
                return;
            },
        };
        if !crate::hnsw::bytes_eq(bytes, re.as_slice()) {
            self.vector_collections = Vec::new();
            return;
        }
    }
}

/// A standalone registry of vector collections.
pub struct VectorSearcher {
    collections: Vec<(String, VectorCollection)>,
}

/// The names the registry holds, in creation order.
pub closed spec fn searcher_names(s: VectorSearcher) -> Seq<Seq<char>> {
    Seq::new(s.collections@.len(), |i: int| s.collections@[i].0@)
}

/// The collection the registry holds under a name, if any.
pub closed spec fn searcher_coll(s: VectorSearcher, name: Seq<char>) -> Option<
    VectorCollection,
> {
    if exists|i: int|
        0 <= i < s.collections@.len() && (#[trigger] s.collections@[i]).0@ == name {
        let i = choose|i: int|
            0 <= i < s.collections@.len() && (#[trigger] s.collections@[i]).0@ == name;
        Option::Some(s.collections@[i].1)
    } else {
        Option::None
    }
}

/// With unique names, the collection under the name at an index is the
/// one at that index.
proof fn lemma_searcher_coll_at(s: VectorSearcher, i: int)
    requires
        forall|a: int, b: int|
            0 <= a < b < s.collections@.len() ==> (#[trigger] s.collections@[a]).0@ != (
            #[trigger] s.collections@[b]).0@,
        0 <= i < s.collections@.len(),
    ensures
        searcher_coll(s, s.collections@[i].0@) == Option::Some(s.collections@[i].1),
{
    let name = s.collections@[i].0@;
    assert(exists|j: int|
        0 <= j < s.collections@.len() && (#[trigger] s.collections@[j]).0@ == name);
    let j = choose|j: int|
        0 <= j < s.collections@.len() && (#[trigger] s.collections@[j]).0@ == name;
    if j != i {
        if j < i {
            assert(s.collections@[j].0@ != s.collections@[i].0@);
        } else {
            assert(s.collections@[i].0@ != s.collections@[j].0@);
        }
    }
}

impl VectorSearcher {
    /// The registry's invariant.
    pub closed spec fn wf(self) -> bool {
        &&& forall|i: int, j: int|
            0 <= i < j < self.collections@.len() ==> (#[trigger] self.collections@[i]).0@
                != (#[trigger] self.collections@[j]).0@
        &&& forall|i: int|
            0 <= i < self.collections@.len() ==> (#[trigger] self.collections@[i]).1.wf()
    }

    /// An empty registry.
    pub fn new() -> (r: VectorSearcher)
        ensures
            r.wf(),
    {
        VectorSearcher { collections: Vec::new() }
    }

    fn find(&self, name: &str) -> (r: Option<usize>)
        requires
            self.wf(),
        ensures
            match r {
                Option::Some(i) => i < self.collections@.len()
                    && self.collections@[i as int].0@ == name@ && searcher_coll(
                    *self,
                    name@,
                ) == Option::Some(self.collections@[i as int].1),
                Option::None => searcher_coll(*self, name@) is None && forall|i: int|
                    0 <= i < self.collections@.len() ==> (
                    #[trigger] self.collections@[i]).0@ != name@,
            },
    {
        let mut k: usize = 0;
        while k < self.collections.len()
            invariant
                self.wf(),
                k <= self.collections@.len(),
                forall|i: int|
                    0 <= i < k ==> (#[trigger] self.collections@[i]).0@ != name@,
            decreases self.collections@.len() - k,
        {
            if str_eq(self.collections[k].0.as_str(), name) {
                proof {
                    lemma_searcher_coll_at(*self, k as int);
                }
                return Option::Some(k);
            }
            k = k + 1;
        }
        Option::None
    }

    /// Creates a named collection; fails exactly when the name exists.
    pub fn create_collection(&mut self, name: &str, config: VectorConfig) -> (r: Result<
        (),
        KeraDBError,
    >)
        requires
            old(self).wf(),
            config.wf(),
        ensures
            final(self).wf(),
            r is Ok <==> searcher_coll(*old(self), name@) is None,
            r matches Result::Ok(_) ==> ({
                &&& searcher_names(*final(self)) == searcher_names(*old(self)).push(name@)
                &&& (searcher_coll(*final(self), name@) matches Option::Some(c)
                    && c.spec_config() == config && graph_ids(coll_graph(c)).len() == 0
                    && coll_graph(c).spec_next_id() == 0)
            }),
            r matches Result::Err(e) ==> *final(self) == *old(self)
                && e is CollectionExists,
    {
        match self.find(name) {
            Option::Some(_) => {
                return Result::Err(KeraDBError::CollectionExists(name.to_owned()));
            },
            Option::None => {},
        }
        let coll = VectorCollection::new(name.to_owned(), config);
        let ghost pre = *self;
        self.collections.push((name.to_owned(), coll));
        proof {
            assert forall|a: int, b: int|
                0 <= a < b < self.collections@.len() implies (
            #[trigger] self.collections@[a]).0@ != (#[trigger] self.collections@[b]).0@ by {
                if b < self.collections@.len() - 1 {
                    assert(self.collections@[a] == pre.collections@[a]);
                    assert(self.collections@[b] == pre.collections@[b]);
                } else {
                    assert(self.collections@[a] == pre.collections@[a]);
                }
            }
            assert forall|j: int|
                0 <= j < self.collections@.len() implies (
            #[trigger] self.collections@[j]).1.wf() by {
                if j < self.collections@.len() - 1 {
                    assert(self.collections@[j] == pre.collections@[j]);
                }
            }
            assert(searcher_names(*self) =~= searcher_names(pre).push(name@));
            lemma_searcher_coll_at(*self, self.collections@.len() - 1);
        }
        Result::Ok(())
    }

    /// Inserts a vector into a named collection.  Succeeds exactly
    /// when the collection exists, the vector fits its configuration,
    /// and its id space is not exhausted.
    pub fn insert(&mut self, collection: &str, vector: Vec<i64>, metadata: Option<Val>)
        -> (r: Result<u64, KeraDBError>)
        requires
            old(self).wf(),
        ensures
            final(self).wf(),
            searcher_names(*final(self)) == searcher_names(*old(self)),
            r is Ok <==> (searcher_coll(*old(self), collection@) matches Option::Some(c)
                && vec_ok(vector@) && vector@.len() == c.spec_config().dimensions
                && coll_graph(c).spec_next_id() < i64::MAX as u64),
            match r {
                Result::Ok(id) => (searcher_coll(*final(self), collection@)
                    matches Option::Some(c2) && {
                    &&& graph_has(coll_graph(c2), id)
                    &&& node_vec(coll_graph(c2), id) == vector@
                    &&& (match metadata {
                        Option::Some(m) => assoc_get(coll_metadata(c2), id)
                            == Option::Some(m@),
                        Option::None => assoc_get(coll_metadata(c2), id) is None,
                    })
                }),
                Result::Err(e) => e is CollectionNotFound || e is InvalidFormat,
            },
    {
        let i = match self.find(collection) {
            Option::Some(i) => i,
            Option::None => {
                return Result::Err(KeraDBError::CollectionNotFound(collection.to_owned()));
            },
        };
        let ghost pre = *self;
        let r = self.collections[i].1.insert(vector, metadata);
        proof {
            assert forall|j: int|
                0 <= j < self.collections@.len() implies (
            #[trigger] self.collections@[j]).1.wf() by {
                if j != i {
                    assert(self.collections@[j] == pre.collections@[j]);
                }
            }
            assert forall|a: int, b: int|
                0 <= a < b < self.collections@.len() implies (
            #[trigger] self.collections@[a]).0@ != (#[trigger] self.collections@[b]).0@ by {
                assert(self.collections@[a].0 == pre.collections@[a].0);
                assert(self.collections@[b].0 == pre.collections@[b].0);
            }
            assert(searcher_names(*self) =~= searcher_names(pre));
            assert(self.collections@[i as int].0@ == collection@);
            lemma_searcher_coll_at(*self, i as int);
        }
        r
    }

    /// Searches a named collection: the approximate nearest `k`,
    /// ranked, with exact scores and the stored metadata attached.
    pub fn search(&self, collection: &str, query: &Vec<i64>, k: usize) -> (r: Result<
        Vec<VectorSearchResult>,
        KeraDBError,
    >)
        requires
            self.wf(),
        ensures
            r is Ok <==> (searcher_coll(*self, collection@) matches Option::Some(c)
                && vec_ok(query@) && query@.len() == c.spec_config().dimensions),
            match r {
                Result::Ok(rs) => (searcher_coll(*self, collection@)
                    matches Option::Some(c) && {
                    &&& rs@.len() <= k
                    &&& (graph_ids(coll_graph(c)).len() > 0 && k >= 1 ==> rs@.len() >= 1)
                    &&& (graph_ids(coll_graph(c)).len() == 0 ==> rs@.len() == 0)
                    &&& results_exact(c, query@, rs@)
                    &&& results_ranked(rs@)
                }),
                Result::Err(e) => e is CollectionNotFound || e is InvalidFormat,
            },
    {
        let i = match self.find(collection) {
            Option::Some(i) => i,
            Option::None => {
                return Result::Err(KeraDBError::CollectionNotFound(collection.to_owned()));
            },
        };
        self.collections[i].1.search(query, k)
    }

    /// Every collection name.
    pub fn list_collections(&self) -> (r: Vec<String>)
        requires
            self.wf(),
        ensures
            r@.len() == searcher_names(*self).len(),
    {
        let mut out: Vec<String> = Vec::new();
        let mut k: usize = 0;
        while k < self.collections.len()
            invariant
                k <= self.collections@.len(),
                out@.len() == k,
            decreases self.collections@.len() - k,
        {
            out.push(self.collections[k].0.clone());
            k = k + 1;
        }
        out
    }

    /// Drops a collection; returns whether it existed.
    pub fn drop_collection(&mut self, name: &str) -> (r: Result<bool, KeraDBError>)
        requires
            old(self).wf(),
        ensures
            final(self).wf(),
            r is Ok,
            match r {
                Result::Ok(b) => {
                    &&& b == (searcher_coll(*old(self), name@) is Some)
                    &&& !b ==> *final(self) == *old(self)
                },
                Result::Err(_) => false,
            },
    {
        match self.find(name) {
            Option::Some(i) => {
                let ghost pre = *self;
                self.collections.remove(i);
                proof {
                    assert forall|a: int, b: int|
                        0 <= a < b < self.collections@.len() implies (
                    #[trigger] self.collections@[a]).0@ != (
                    #[trigger] self.collections@[b]).0@ by {
                        let a2: int = if a < i {
                            a
                        } else {
                            a + 1
                        };
                        let b2: int = if b < i {
                            b
                        } else {
                            b + 1
                        };
                        assert(self.collections@[a] == pre.collections@[a2]);
                        assert(self.collections@[b] == pre.collections@[b2]);
                    }
                    assert forall|j: int|
                        0 <= j < self.collections@.len() implies (
                    #[trigger] self.collections@[j]).1.wf() by {
                        let j2: int = if j < i {
                            j
                        } else {
                            j + 1
                        };
                        assert(self.collections@[j] == pre.collections@[j2]);
                    }
                }
                Result::Ok(true)
            },
            Option::None => Result::Ok(false),
        }
    }
}

} // verus!

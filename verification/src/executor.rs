//! The document executor: CRUD over the pager, the primary index and
//! the buffer pool.
//!
//! The executor's invariant ties the three together: every index entry
//! points at a data page whose bytes decode, frame and parse to a
//! document carrying that id and that collection, and every cached page
//! agrees with the raw page bytes.  The contracts below say exactly
//! which document every operation stores or returns.

use vstd::prelude::*;
use vstd::bytes::{spec_u32_to_le_bytes, spec_u32_from_le_bytes, u32_to_le_bytes,
    u32_from_le_bytes, lemma_auto_spec_u32_to_from_le_bytes};
use vstd::slice::{slice_subrange, slice_to_vec};
use crate::assoc::{assoc_get, assoc_unique};
use crate::buffer::{BufferPool, pool_lookup};
use crate::error::KeraDBError;
use crate::index::{Index, IndexEntry, Loc, index_find, index_bucket, index_collections};
use crate::jsonval::{Val, ValModel, val_model, val_get, obj_get, obj_set, obj_remove,
    model_wf};
use crate::page::{Page, PageM, page_model, PageType, PAGE_OVERHEAD, page_bytes_ok,
    spec_page_type_from, spec_page_bytes, pad_payload};
use crate::pager::{Pager, pager_raw, spec_file_bytes};
use crate::serializer::{Document, Serializer, spec_serialize_doc, spec_deserialize_doc,
    doc_json_model};
use crate::jsontext::spec_render;
use crate::outside::now_unix_seconds;

verus! {

/// Cached facts about one collection: its name, its document count, and
/// when it was first and last touched (seconds since the Unix epoch).
#[derive(Debug)]
pub struct CollectionMetadata {
    pub name: String,
    pub document_count: usize,
    pub created_at: i64,
    pub updated_at: i64,
}

impl CollectionMetadata {
    /// Fresh metadata for a collection touched now.
    pub fn new(name: String) -> (r: CollectionMetadata)
        ensures
            r.name@ == name@,
            r.document_count == 0,
    {
        let now = now_unix_seconds();
        CollectionMetadata { name, document_count: 0, created_at: now, updated_at: now }
    }
}

/// Database configuration: the page size and the buffer-pool capacity.
#[derive(Debug, Clone)]
pub struct Config {
    pub page_size: usize,
    pub cache_size: usize,
    pub auto_checkpoint: bool,
}

impl Default for Config {
    /// 4 KiB pages and a 100-page cache.
    fn default() -> (r: Config)
        ensures
            r.page_size == 4096,
            r.cache_size == 100,
            r.auto_checkpoint,
    {
        Config { page_size: 4096, cache_size: 100, auto_checkpoint: true }
    }
}

/// The document a page payload holds: a 32-bit length prefix followed
/// by that many bytes of encoded document.
pub open spec fn page_payload_doc(payload: Seq<u8>) -> Option<(Seq<char>, ValModel)> {
    if payload.len() < 4 {
        Option::None
    } else {
        let n = spec_u32_from_le_bytes(payload.subrange(0, 4));
        if n == 0 || 4 + n > payload.len() {
            Option::None
        } else {
            spec_deserialize_doc(payload.subrange(4, 4 + n))
        }
    }
}

/// The document a raw page holds, when it is a data page that decodes
/// and parses.
pub open spec fn raw_page_doc(raw_page: Seq<u8>) -> Option<(Seq<char>, ValModel)> {
    if page_bytes_ok(raw_page) && spec_page_type_from(raw_page[0]) == Option::Some(
        PageType::Data,
    ) {
        page_payload_doc(raw_page.skip(PAGE_OVERHEAD as int))
    } else {
        Option::None
    }
}

/// The collection a stored document body names under `_collection`.
pub open spec fn body_collection(body: ValModel) -> Option<Seq<char>> {
    match val_get(body, "_collection"@) {
        Option::Some(v) => match v {
            ValModel::Str(c) => Option::Some(c),
            _ => Option::None,
        },
        _ => Option::None,
    }
}

/// The `(collection, id)` key a raw page contributes to the index,
/// when it holds a parseable data-page document naming its collection.
pub open spec fn page_doc_key(raw_page: Seq<u8>) -> Option<(Seq<char>, Seq<char>)> {
    match raw_page_doc(raw_page) {
        Option::Some(p) => match body_collection(p.1) {
            Option::Some(c) => Option::Some((c, p.0)),
            Option::None => Option::None,
        },
        Option::None => Option::None,
    }
}

/// No two pages hold a document with the same collection and id.
pub open spec fn docs_unique(raw: Seq<Seq<u8>>) -> bool {
    forall|n1: int, n2: int|
        0 <= n1 < n2 < raw.len() ==> ((#[trigger] page_doc_key(raw[n1])) is None
            || page_doc_key(raw[n1]) != (#[trigger] page_doc_key(raw[n2])))
}

/// Whether the index covers every parseable data page: each page that
/// holds a document is registered for that document's collection and id
/// at that page.  A failed duplicate insert leaks a page and breaks
/// this; every other operation preserves it.
pub open spec fn index_complete(e: Executor) -> bool {
    forall|n: int|
        0 <= n < e.raw().len() ==> match #[trigger] page_doc_key(e.raw()[n]) {
            Option::Some(k) => e.find_loc(k.0, k.1) == Option::Some((n as u32, 0usize)),
            Option::None => true,
        }
}

/// A state fit for reopening: no two pages hold the same document and
/// the index covers every document page.
pub open spec fn consistent(e: Executor) -> bool {
    docs_unique(e.raw()) && index_complete(e)
}

/// The fields a document body is stored with: `_collection` set to the
/// collection name and `_id` stripped.
pub open spec fn stored_fields(fields: Seq<(Seq<char>, ValModel)>, c: Seq<char>) -> Seq<
    (Seq<char>, ValModel),
> {
    obj_remove(obj_set(fields, "_collection"@, ValModel::Str(c)), "_id"@)
}

/// The round-trip law for stored bodies: what `insert` stores and a
/// later `find_by_id` returns is the inserted object with
/// `_collection` set to the collection and `_id` removed — every other
/// field reads back unchanged.
pub proof fn lemma_stored_body_round_trip(
    fields: Seq<(Seq<char>, ValModel)>,
    c: Seq<char>,
    key: Seq<char>,
)
    requires
        model_wf(ValModel::Obj(fields)),
        key != "_collection"@,
        key != "_id"@,
    ensures
        obj_get(stored_fields(fields, c), key) == obj_get(fields, key),
        obj_get(stored_fields(fields, c), "_collection"@) == Option::Some(
            ValModel::Str(c),
        ),
        obj_get(stored_fields(fields, c), "_id"@) is None,
{
    let set1 = obj_set(fields, "_collection"@, ValModel::Str(c));
    crate::jsonval::lemma_obj_set_wf(fields, "_collection"@, ValModel::Str(c));
    crate::jsonval::lemma_obj_wf_parts(ValModel::Obj(set1), set1);
    crate::jsonval::lemma_obj_get_set(fields, "_collection"@, ValModel::Str(c), key);
    crate::jsonval::lemma_obj_get_set(fields, "_collection"@, ValModel::Str(c),
    "_collection"@);
    crate::jsonval::lemma_obj_get_remove(set1, "_id"@, key);
    crate::jsonval::lemma_obj_get_remove(set1, "_id"@, "_collection"@);
    crate::jsonval::lemma_obj_get_remove(set1, "_id"@, "_id"@);
    reveal_strlit("_id");
    reveal_strlit("_collection");
    assert("_id"@.len() == 3);
    assert("_collection"@.len() == 11);
    assert("_id"@ != "_collection"@);
}

/// The document executor.
pub struct Executor {
    pager: Pager,
    buffer_pool: BufferPool,
    index: Index,
    collections: Vec<(String, CollectionMetadata)>,
}

impl Executor {
    /// The raw pages of the underlying file image.
    pub closed spec fn raw(self) -> Seq<Seq<u8>> {
        pager_raw(self.pager)
    }

    /// The page size of the underlying file image.
    pub closed spec fn page_size(self) -> int {
        self.pager.spec_page_size()
    }

    /// The locator the index holds for `(collection, id)`.
    pub closed spec fn find_loc(self, c: Seq<char>, id: Seq<char>) -> Option<Loc> {
        index_find(self.index, c, id)
    }

    /// The stored body of the document at `(collection, id)`; meaningful
    /// when the index holds the pair.
    pub open spec fn body_at(self, c: Seq<char>, id: Seq<char>) -> ValModel {
        match self.find_loc(c, id) {
            Option::Some(loc) => match raw_page_doc(self.raw()[loc.0 as int]) {
                Option::Some(p) => p.1,
                Option::None => ValModel::Null,
            },
            Option::None => ValModel::Null,
        }
    }

    /// The collections the index knows, in order.
    pub closed spec fn collections_model(self) -> Seq<Seq<char>> {
        index_collections(self.index)
    }

    /// The ids of a collection, in order.
    pub closed spec fn ids_model(self, c: Seq<char>) -> Seq<Seq<char>> {
        match index_bucket(self.index, c) {
            Option::Some(es) => es.map_values(|p: (Seq<char>, Loc)| p.0),
            Option::None => Seq::empty(),
        }
    }

    /// The executor's invariant.
    pub closed spec fn wf(self) -> bool {
        &&& self.pager.wf()
        &&& self.buffer_pool.wf()
        &&& self.index.wf()
        &&& 9 <= self.page_size()
        &&& forall|c: Seq<char>, id: Seq<char>|
            #[trigger] self.find_loc(c, id) matches Option::Some(loc) ==> {
                &&& loc.0 < self.raw().len()
                &&& loc.1 == 0
                &&& raw_page_doc(self.raw()[loc.0 as int]) matches Option::Some(p)
                    && p.0 == id && body_collection(p.1) == Option::Some(c)
            }
        &&& forall|n: u32|
            #[trigger] pool_lookup(self.buffer_pool, n) matches Option::Some(pm) ==> {
                &&& n < self.raw().len()
                &&& page_bytes_ok(self.raw()[n as int])
                &&& Option::Some(pm.page_type) == spec_page_type_from(
                    self.raw()[n as int][0],
                )
                &&& pm.data == self.raw()[n as int].skip(PAGE_OVERHEAD as int)
                &&& pm.page_num == n
            }
    }

    /// A fresh executor over an empty or freshly opened pager, with the
    /// index rebuilt by scanning every page.
    pub fn new(pager: Pager, cache_size: usize) -> (r: Executor)
        requires
            pager.wf(),
            pager.spec_page_size() >= 9,
        ensures
            r.wf(),
            r.raw() == pager_raw(pager),
            r.page_size() == pager.spec_page_size(),
            docs_unique(pager_raw(pager)) ==> index_complete(r),
            pager_raw(pager).len() == 0 ==> (forall|c: Seq<char>, id: Seq<char>|
                #[trigger] r.find_loc(c, id) is None) && r.collections_model().len() == 0
                && consistent(r),
    {
        let mut e = Executor {
            pager,
            buffer_pool: BufferPool::new(cache_size),
            index: Index::new(),
            collections: Vec::new(),
        };
        proof {
            assert forall|c: Seq<char>, id: Seq<char>| #[trigger] e.find_loc(c, id)
                matches Option::Some(loc) implies false by {
                crate::assoc::lemma_assoc_get_absent(
                    crate::index::index_model(e.index),
                    c,
                );
            }
        }
        let ghost fresh_index = e.index;
        e.rebuild_index();
        proof {
            if pager_raw(pager).len() == 0 {
                assert(e.index == fresh_index);
                assert forall|c: Seq<char>, id: Seq<char>| #[trigger] e.find_loc(c, id)
                    is None by {
                    crate::assoc::lemma_assoc_get_absent(
                        crate::index::index_model(e.index),
                        c,
                    );
                }
                assert(e.collections_model().len() == 0) by {
                    assert(crate::index::index_model(e.index).len() == 0);
                }
            }
        }
        e
    }

    /// Scans every page and registers each parseable data page's
    /// document under its stored collection and id.  The scan stops
    /// early if a duplicate id is met (a page leaked by a failed
    /// insert); the index then covers the pages before it.
    #[verifier::rlimit(100)]
    fn rebuild_index(&mut self)
        requires
            old(self).pager.wf(),
            old(self).buffer_pool.wf(),
            old(self).index.wf(),
            9 <= old(self).page_size(),
            forall|c: Seq<char>, id: Seq<char>|
                #[trigger] old(self).find_loc(c, id) is None,
            forall|n: u32| #[trigger] pool_lookup(old(self).buffer_pool, n) is None,
        ensures
            final(self).wf(),
            final(self).raw() == old(self).raw(),
            final(self).page_size() == old(self).page_size(),
            final(self).buffer_pool == old(self).buffer_pool,
            old(self).raw().len() == 0 ==> final(self).index == old(self).index,
            // When no two pages hold the same document, the scan cannot
            // stop early: every parseable data page is registered.
            docs_unique(old(self).raw()) ==> forall|n: int|
                0 <= n < old(self).raw().len() ==> match #[trigger] page_doc_key(
                    old(self).raw()[n],
                ) {
                    Option::Some(k) => final(self).find_loc(k.0, k.1) == Option::Some(
                        (n as u32, 0usize),
                    ),
                    Option::None => true,
                },
    {
        let count = self.pager.page_count();
        let ghost raw = self.raw();
        let mut n: u32 = 0;
        let ghost unique_docs = docs_unique(raw);
        while n < count
            invariant
                self.pager.wf(),
                self.buffer_pool.wf(),
                self.index.wf(),
                9 <= self.page_size(),
                self.pager == old(self).pager,
                self.buffer_pool == old(self).buffer_pool,
                forall|q: u32| #[trigger] pool_lookup(self.buffer_pool, q) is None,
                raw == self.raw(),
                count == raw.len(),
                n <= count,
                unique_docs == docs_unique(raw),
                raw.len() == 0 ==> self.index == old(self).index,
                forall|c: Seq<char>, id: Seq<char>|
                    #[trigger] self.find_loc(c, id) matches Option::Some(loc) ==> {
                        &&& loc.0 < n
                        &&& loc.1 == 0
                        &&& page_doc_key(raw[loc.0 as int]) == Option::Some((c, id))
                    },
                unique_docs ==> forall|m: int|
                    0 <= m < n ==> match #[trigger] page_doc_key(raw[m]) {
                        Option::Some(k) => self.find_loc(k.0, k.1) == Option::Some(
                            (m as u32, 0usize),
                        ),
                        Option::None => true,
                    },
            decreases count - n,
        {
            let ghost pre_self = *self;
            match Self::page_key_exec(&self.pager, n) {
                Option::None => {},
                Option::Some((coll, id)) => {
                    let ghost gid = id@;
                    let ghost gc = coll@;
                    let ghost pre_index = self.index;
                    match self.index.insert(coll.as_str(), id, n, 0) {
                        Result::Ok(()) => {
                            self.update_collection_metadata(coll.as_str(), true);
                            proof {
                                assert(self.find_loc(gc, gid) == Option::Some(
                                    (n, 0usize),
                                ));
                                assert forall|c2: Seq<char>, id2: Seq<char>|
                                    (#[trigger] self.find_loc(c2, id2)) is Some implies {
                                    let loc = self.find_loc(c2, id2)->Some_0;
                                    &&& loc.0 < n + 1
                                    &&& loc.1 == 0
                                    &&& page_doc_key(raw[loc.0 as int]) == Option::Some(
                                        (c2, id2),
                                    )
                                } by {
                                    if !(c2 == gc && id2 == gid) {
                                        assert(index_find(self.index, c2, id2)
                                            == index_find(pre_index, c2, id2));
                                        assert(pre_self.find_loc(c2, id2) == index_find(
                                            pre_index,
                                            c2,
                                            id2,
                                        ));
                                    }
                                }
                                if unique_docs {
                                    assert forall|m: int| 0 <= m < n + 1 implies match
                                    #[trigger] page_doc_key(raw[m]) {
                                        Option::Some(k) => self.find_loc(k.0, k.1)
                                            == Option::Some((m as u32, 0usize)),
                                        Option::None => true,
                                    } by {
                                        match page_doc_key(raw[m]) {
                                            Option::Some(k) => {
                                                if m < n {
                                                    assert(!(page_doc_key(
                                                        raw[m],
                                                    ) is None) && page_doc_key(raw[m])
                                                        != page_doc_key(raw[n as int])
                                                        || !(m < n));
                                                    assert(!(k.0 == gc && k.1 == gid));
                                                    assert(pre_self.find_loc(k.0, k.1)
                                                        == Option::Some((m as u32, 0usize)));
                                                    assert(index_find(
                                                        self.index,
                                                        k.0,
                                                        k.1,
                                                    ) == index_find(pre_index, k.0, k.1));
                                                } else {
                                                    assert(k == (gc, gid));
                                                }
                                            },
                                            Option::None => {},
                                        }
                                    }
                                }
                            }
                        },
                        Result::Err(_) => {
                            // A duplicate: a page leaked by a failed
                            // insert.  Stop the scan; the index covers
                            // the pages before this one.
                            proof {
                                if unique_docs {
                                    let loc = self.find_loc(gc, gid)->Some_0;
                                    assert(page_doc_key(raw[loc.0 as int])
                                        == Option::Some((gc, gid)));
                                    assert(page_doc_key(raw[n as int]) == Option::Some(
                                        (gc, gid),
                                    ));
                                    assert(false);
                                }
                                assert forall|c2: Seq<char>, id2: Seq<char>|
                                    (#[trigger] self.find_loc(c2, id2)) is Some implies {
                                    let loc = self.find_loc(c2, id2)->Some_0;
                                    &&& loc.0 < self.raw().len()
                                    &&& loc.1 == 0
                                    &&& raw_page_doc(self.raw()[loc.0 as int])
                                        matches Option::Some(p) && p.0 == id2
                                        && body_collection(p.1) == Option::Some(c2)
                                } by {
                                    assert(pre_self.find_loc(c2, id2) == self.find_loc(
                                        c2,
                                        id2,
                                    ));
                                    let loc = self.find_loc(c2, id2)->Some_0;
                                    assert(page_doc_key(raw[loc.0 as int])
                                        == Option::Some((c2, id2)));
                                }
                                assert(self.wf());
                            }
                            return;
                        },
                    }
                },
            }
            n = n + 1;
        }
        proof {
            assert forall|c2: Seq<char>, id2: Seq<char>|
                (#[trigger] self.find_loc(c2, id2)) is Some implies {
                let loc = self.find_loc(c2, id2)->Some_0;
                &&& loc.0 < self.raw().len()
                &&& loc.1 == 0
                &&& raw_page_doc(self.raw()[loc.0 as int]) matches Option::Some(p)
                    && p.0 == id2 && body_collection(p.1) == Option::Some(c2)
            } by {
                let loc = self.find_loc(c2, id2)->Some_0;
                assert(page_doc_key(raw[loc.0 as int]) == Option::Some((c2, id2)));
            }
            assert(self.wf());
        }
    }

    /// The index key one page contributes: the stored document's
    /// collection and id, when the page is a parseable data page.
    fn page_key_exec(pager: &Pager, n: u32) -> (r: Option<(String, String)>)
        requires
            pager.wf(),
        ensures
            match r {
                Option::Some(p) => n < pager_raw(*pager).len() && page_doc_key(
                    pager_raw(*pager)[n as int],
                ) == Option::Some((p.0@, p.1@)),
                Option::None => n >= pager_raw(*pager).len() || page_doc_key(
                    pager_raw(*pager)[n as int],
                ) is None,
            },
    {
        let ghost raw = pager_raw(*pager);
        let page = match pager.read_page(n) {
            Result::Ok(p) => p,
            Result::Err(_) => {
                return Option::None;
            },
        };
        let is_data = match page.page_type {
            PageType::Data => true,
            _ => false,
        };
        if !is_data {
            return Option::None;
        }
        let doc = match Self::extract_document_from_page(&page) {
            Result::Ok(d) => d,
            Result::Err(_) => {
                return Option::None;
            },
        };
        proof {
            assert(page_bytes_ok(raw[n as int]));
            assert(spec_page_type_from(raw[n as int][0]) == Option::Some(PageType::Data));
            assert(page.data@ == raw[n as int].skip(PAGE_OVERHEAD as int));
            assert(raw_page_doc(raw[n as int]) == Option::Some((doc.id@, doc.data@)));
        }
        let coll = match doc.data.get("_collection") {
            Option::Some(v) => match v {
                Val::Str(s) => s.clone(),
                _ => {
                    return Option::None;
                },
            },
            Option::None => {
                return Option::None;
            },
        };
        proof {
            assert(body_collection(doc.data@) == Option::Some(coll@));
        }
        Option::Some((coll, doc.id))
    }

    /// Reads the length-prefixed document out of a page's payload.
    fn extract_document_from_page(page: &Page) -> (r: Result<Document, KeraDBError>)
        ensures
            match r {
                Result::Ok(doc) => page_payload_doc(page.data@) == Option::Some(
                    (doc.id@, doc.data@),
                ),
                Result::Err(_) => page_payload_doc(page.data@) is None,
            },
    {
        if page.data.len() < 4 {
            return Result::Err(KeraDBError::StorageError("invalid page data".to_owned()));
        }
        let len32 = u32_from_le_bytes(slice_subrange(page.data.as_slice(), 0, 4));
        let len = len32 as usize;
        if len == 0 || len > page.data.len() - 4 {
            return Result::Err(
                KeraDBError::StorageError("invalid document length".to_owned()),
            );
        }
        let doc_bytes = slice_subrange(page.data.as_slice(), 4, 4 + len);
        proof {
            assert(doc_bytes@ =~= page.data@.subrange(4, 4 + len32 as int));
        }
        Serializer::deserialize(doc_bytes)
    }

    fn update_collection_metadata(&mut self, collection: &str, grow: bool)
        ensures
            final(self).pager == old(self).pager,
            final(self).buffer_pool == old(self).buffer_pool,
            final(self).index == old(self).index,
    {
        let mut k: usize = 0;
        while k < self.collections.len()
            invariant
                k <= self.collections@.len(),
                self.pager == old(self).pager,
                self.buffer_pool == old(self).buffer_pool,
                self.index == old(self).index,
            decreases self.collections@.len() - k,
        {
            if crate::strutil::str_eq(self.collections[k].0.as_str(), collection) {
                let now = now_unix_seconds();
                if grow {
                    let c = self.collections[k].1.document_count;
                    self.collections[k].1.document_count = if c < usize::MAX {
                        c + 1
                    } else {
                        c
                    };
                } else {
                    let c = self.collections[k].1.document_count;
                    self.collections[k].1.document_count = if c > 0 {
                        c - 1
                    } else {
                        0
                    };
                }
                self.collections[k].1.updated_at = now;
                return;
            }
            k = k + 1;
        }
        let name = collection.to_owned();
        let mut meta = CollectionMetadata::new(collection.to_owned());
        if grow {
            meta.document_count = 1;
        }
        self.collections.push((name, meta));
    }
}


/// Whether a body is rejected outright: not an object, or `_id` present
/// but not a string.
pub open spec fn insert_doc_invalid(m: ValModel) -> bool {
    ||| !(m is Obj)
    ||| (match val_get(m, "_id"@) {
        Option::Some(v) => !(v is Str),
        Option::None => false,
    })
}

/// The id the caller supplied inside the body, when `_id` is a string.
pub open spec fn given_doc_id(m: ValModel) -> Option<Seq<char>> {
    match val_get(m, "_id"@) {
        Option::Some(v) => match v {
            ValModel::Str(s) => Option::Some(s),
            _ => Option::None,
        },
        Option::None => Option::None,
    }
}

/// Whether the stored encoding of a document fits one page's payload:
/// the length prefix plus the encoded document within the page capacity.
pub open spec fn doc_fits(
    id: Seq<char>,
    fields: Seq<(Seq<char>, ValModel)>,
    c: Seq<char>,
    page_size: int,
) -> bool {
    spec_serialize_doc(id, stored_fields(fields, c)).len() + 4 <= page_size - PAGE_OVERHEAD
}

impl Executor {
    /// Well-formedness survives appending or rewriting pages past the
    /// old end of the file while the index and the pool are unchanged.
    proof fn lemma_wf_grow(pre: Executor, post: Executor)
        requires
            pre.wf(),
            post.pager.wf(),
            post.page_size() == pre.page_size(),
            post.index == pre.index,
            post.buffer_pool == pre.buffer_pool,
            post.raw().len() >= pre.raw().len(),
            forall|m: int|
                0 <= m < pre.raw().len() ==> post.raw()[m] == #[trigger] pre.raw()[m],
        ensures
            post.wf(),
    {
        assert forall|c2: Seq<char>, id2: Seq<char>|
            (#[trigger] post.find_loc(c2, id2)) is Some implies {
            let loc = post.find_loc(c2, id2)->Some_0;
            &&& loc.0 < post.raw().len()
            &&& loc.1 == 0
            &&& raw_page_doc(post.raw()[loc.0 as int]) matches Option::Some(p) && p.0
                == id2 && body_collection(p.1) == Option::Some(c2)
        } by {
            let loc = post.find_loc(c2, id2)->Some_0;
            assert(pre.find_loc(c2, id2) == post.find_loc(c2, id2));
            assert(post.raw()[loc.0 as int] == pre.raw()[loc.0 as int]);
        }
        assert forall|q: u32|
            (#[trigger] pool_lookup(post.buffer_pool, q)) is Some implies {
            let pm = pool_lookup(post.buffer_pool, q)->Some_0;
            &&& q < post.raw().len()
            &&& page_bytes_ok(post.raw()[q as int])
            &&& Option::Some(pm.page_type) == spec_page_type_from(post.raw()[q as int][0])
            &&& pm.data == post.raw()[q as int].skip(PAGE_OVERHEAD as int)
            &&& pm.page_num == q
        } by {
            assert(pool_lookup(pre.buffer_pool, q) == pool_lookup(post.buffer_pool, q));
            assert(post.raw()[q as int] == pre.raw()[q as int]);
        }
    }

    /// Well-formedness after a successful insert: one new page holding
    /// the new document, one new index binding, the new page cached.
    proof fn lemma_wf_insert(pre: Executor, post: Executor, c: Seq<char>, id: Seq<char>,
        n: u32)
        requires
            pre.wf(),
            post.pager.wf(),
            post.index.wf(),
            post.buffer_pool.wf(),
            post.page_size() == pre.page_size(),
            n == pre.raw().len(),
            post.raw().len() == pre.raw().len() + 1,
            forall|m: int|
                0 <= m < pre.raw().len() ==> post.raw()[m] == #[trigger] pre.raw()[m],
            page_doc_key(post.raw()[n as int]) == Option::Some((c, id)),
            post.find_loc(c, id) == Option::Some((n, 0usize)),
            forall|c2: Seq<char>, id2: Seq<char>|
                !(c2 == c && id2 == id) ==> #[trigger] post.find_loc(c2, id2)
                    == pre.find_loc(c2, id2),
            forall|q: u32|
                (#[trigger] pool_lookup(post.buffer_pool, q)) is Some ==> q == n
                    || pool_lookup(post.buffer_pool, q) == pool_lookup(
                    pre.buffer_pool,
                    q,
                ),
            pool_lookup(post.buffer_pool, n) matches Option::Some(pm) ==> {
                &&& page_bytes_ok(post.raw()[n as int])
                &&& Option::Some(pm.page_type) == spec_page_type_from(
                    post.raw()[n as int][0],
                )
                &&& pm.data == post.raw()[n as int].skip(PAGE_OVERHEAD as int)
                &&& pm.page_num == n
            },
        ensures
            post.wf(),
    {
        assert forall|c2: Seq<char>, id2: Seq<char>|
            (#[trigger] post.find_loc(c2, id2)) is Some implies {
            let loc = post.find_loc(c2, id2)->Some_0;
            &&& loc.0 < post.raw().len()
            &&& loc.1 == 0
            &&& raw_page_doc(post.raw()[loc.0 as int]) matches Option::Some(p) && p.0
                == id2 && body_collection(p.1) == Option::Some(c2)
        } by {
            let loc = post.find_loc(c2, id2)->Some_0;
            if !(c2 == c && id2 == id) {
                assert(pre.find_loc(c2, id2) == post.find_loc(c2, id2));
                assert(post.raw()[loc.0 as int] == pre.raw()[loc.0 as int]);
            }
        }
        assert forall|q: u32|
            (#[trigger] pool_lookup(post.buffer_pool, q)) is Some implies {
            let pm = pool_lookup(post.buffer_pool, q)->Some_0;
            &&& q < post.raw().len()
            &&& page_bytes_ok(post.raw()[q as int])
            &&& Option::Some(pm.page_type) == spec_page_type_from(post.raw()[q as int][0])
            &&& pm.data == post.raw()[q as int].skip(PAGE_OVERHEAD as int)
            &&& pm.page_num == q
        } by {
            if q != n {
                assert(pool_lookup(pre.buffer_pool, q) == pool_lookup(
                    post.buffer_pool,
                    q,
                ));
                assert(post.raw()[q as int] == pre.raw()[q as int]);
            }
        }
    }
}

impl Executor {
    /// Consistency survives a successful insert: the fresh page holds
    /// the new pair, which no other page held, and gains its binding.
    proof fn lemma_consistent_insert(pre: Executor, post: Executor, c: Seq<char>,
        id: Seq<char>, n: int)
        requires
            consistent(pre),
            n == pre.raw().len(),
            post.raw().len() == pre.raw().len() + 1,
            forall|m: int| 0 <= m < pre.raw().len() ==> post.raw()[m] == #[trigger] pre.raw(
            )[m],
            page_doc_key(post.raw()[n]) == Option::Some((c, id)),
            pre.find_loc(c, id) is None,
            post.find_loc(c, id) == Option::Some((n as u32, 0usize)),
            forall|c2: Seq<char>, id2: Seq<char>|
                !(c2 == c && id2 == id) ==> #[trigger] post.find_loc(c2, id2)
                    == pre.find_loc(c2, id2),
        ensures
            consistent(post),
    {
        assert forall|m: int| 0 <= m < pre.raw().len() implies #[trigger] page_doc_key(
            post.raw()[m],
        ) != Option::Some((c, id)) by {
            assert(post.raw()[m] == pre.raw()[m]);
            match page_doc_key(pre.raw()[m]) {
                Option::Some(k) => {
                    if k == (c, id) {
                        assert(pre.find_loc(c, id) == Option::Some((m as u32, 0usize)));
                    }
                },
                Option::None => {},
            }
        }
        assert forall|n1: int, n2: int|
            0 <= n1 < n2 < post.raw().len() implies ((#[trigger] page_doc_key(
            post.raw()[n1],
        )) is None || page_doc_key(post.raw()[n1]) != (#[trigger] page_doc_key(
            post.raw()[n2],
        ))) by {
            if n2 < post.raw().len() - 1 {
                assert(post.raw()[n1] == pre.raw()[n1]);
                assert(post.raw()[n2] == pre.raw()[n2]);
            } else {
                assert(post.raw()[n1] == pre.raw()[n1]);
            }
        }
        assert forall|m: int| 0 <= m < post.raw().len() implies match
        #[trigger] page_doc_key(post.raw()[m]) {
            Option::Some(k) => post.find_loc(k.0, k.1) == Option::Some(
                (m as u32, 0usize),
            ),
            Option::None => true,
        } by {
            if m < post.raw().len() - 1 {
                assert(post.raw()[m] == pre.raw()[m]);
                match page_doc_key(pre.raw()[m]) {
                    Option::Some(k) => {
                        assert(!(k.0 == c && k.1 == id));
                        assert(post.find_loc(k.0, k.1) == pre.find_loc(k.0, k.1));
                    },
                    Option::None => {},
                }
            }
        }
    }

    /// Consistency survives rewriting a pair's own page with the same
    /// pair's document (an update in place).
    proof fn lemma_consistent_rewrite(pre: Executor, post: Executor, n: u32, c: Seq<char>,
        id: Seq<char>)
        requires
            consistent(pre),
            pre.wf(),
            pre.find_loc(c, id) == Option::Some((n, 0usize)),
            post.raw().len() == pre.raw().len(),
            forall|m: int|
                0 <= m < pre.raw().len() && m != n ==> post.raw()[m] == #[trigger] pre.raw(
                )[m],
            page_doc_key(post.raw()[n as int]) == Option::Some((c, id)),
            forall|c2: Seq<char>, id2: Seq<char>| #[trigger] post.find_loc(c2, id2)
                == pre.find_loc(c2, id2),
        ensures
            consistent(post),
    {
        assert(page_doc_key(pre.raw()[n as int]) == Option::Some((c, id)));
        assert forall|n1: int, n2: int|
            0 <= n1 < n2 < post.raw().len() implies ((#[trigger] page_doc_key(
            post.raw()[n1],
        )) is None || page_doc_key(post.raw()[n1]) != (#[trigger] page_doc_key(
            post.raw()[n2],
        ))) by {
            assert(page_doc_key(post.raw()[n1]) == page_doc_key(pre.raw()[n1]));
            assert(page_doc_key(post.raw()[n2]) == page_doc_key(pre.raw()[n2]));
        }
        assert forall|m: int| 0 <= m < post.raw().len() implies match
        #[trigger] page_doc_key(post.raw()[m]) {
            Option::Some(k) => post.find_loc(k.0, k.1) == Option::Some(
                (m as u32, 0usize),
            ),
            Option::None => true,
        } by {
            assert(page_doc_key(post.raw()[m]) == page_doc_key(pre.raw()[m]));
            match page_doc_key(pre.raw()[m]) {
                Option::Some(k) => {
                    assert(post.find_loc(k.0, k.1) == pre.find_loc(k.0, k.1));
                },
                Option::None => {},
            }
        }
    }

    /// Consistency survives freeing a pair's own page and dropping its
    /// binding (a delete).
    proof fn lemma_consistent_free(pre: Executor, post: Executor, n: u32, c: Seq<char>,
        id: Seq<char>)
        requires
            consistent(pre),
            pre.wf(),
            pre.find_loc(c, id) == Option::Some((n, 0usize)),
            post.raw().len() == pre.raw().len(),
            forall|m: int|
                0 <= m < pre.raw().len() && m != n ==> post.raw()[m] == #[trigger] pre.raw(
                )[m],
            page_doc_key(post.raw()[n as int]) is None,
            post.find_loc(c, id) is None,
            forall|c2: Seq<char>, id2: Seq<char>|
                !(c2 == c && id2 == id) ==> #[trigger] post.find_loc(c2, id2)
                    == pre.find_loc(c2, id2),
        ensures
            consistent(post),
    {
        assert(page_doc_key(pre.raw()[n as int]) == Option::Some((c, id)));
        assert forall|n1: int, n2: int|
            0 <= n1 < n2 < post.raw().len() implies ((#[trigger] page_doc_key(
            post.raw()[n1],
        )) is None || page_doc_key(post.raw()[n1]) != (#[trigger] page_doc_key(
            post.raw()[n2],
        ))) by {
            if n1 != n && n2 != n {
                assert(page_doc_key(post.raw()[n1]) == page_doc_key(pre.raw()[n1]));
                assert(page_doc_key(post.raw()[n2]) == page_doc_key(pre.raw()[n2]));
            }
        }
        assert forall|m: int| 0 <= m < post.raw().len() implies match
        #[trigger] page_doc_key(post.raw()[m]) {
            Option::Some(k) => post.find_loc(k.0, k.1) == Option::Some(
                (m as u32, 0usize),
            ),
            Option::None => true,
        } by {
            if m != n {
                assert(page_doc_key(post.raw()[m]) == page_doc_key(pre.raw()[m]));
                match page_doc_key(pre.raw()[m]) {
                    Option::Some(k) => {
                        if k == (c, id) {
                            if m < n {
                                assert(page_doc_key(pre.raw()[m]) != page_doc_key(
                                    pre.raw()[n as int],
                                ) || page_doc_key(pre.raw()[m]) is None);
                            } else {
                                assert(page_doc_key(pre.raw()[n as int]) is None
                                    || page_doc_key(pre.raw()[n as int]) != page_doc_key(
                                    pre.raw()[m],
                                ));
                            }
                            assert(false);
                        }
                        assert(post.find_loc(k.0, k.1) == pre.find_loc(k.0, k.1));
                    },
                    Option::None => {},
                }
            }
        }
    }

    /// Establishes everything `insert` needs about the stored body: the
    /// model after injecting `_collection` and stripping `_id`, its
    /// well-formedness, and its `_collection` and `_id` lookups.
    proof fn lemma_stored_body(fields: Seq<(Seq<char>, ValModel)>, c: Seq<char>)
        requires
            model_wf(ValModel::Obj(fields)),
        ensures
            model_wf(ValModel::Obj(stored_fields(fields, c))),
            obj_get(stored_fields(fields, c), "_id"@) is None,
            obj_get(stored_fields(fields, c), "_collection"@) == Option::Some(
                ValModel::Str(c),
            ),
    {
        let set1 = obj_set(fields, "_collection"@, ValModel::Str(c));
        crate::jsonval::lemma_obj_set_wf(fields, "_collection"@, ValModel::Str(c));
        crate::jsonval::lemma_obj_remove_wf(set1, "_id"@);
        crate::jsonval::lemma_obj_wf_parts(ValModel::Obj(set1), set1);
        crate::jsonval::lemma_obj_get_remove(set1, "_id"@, "_id"@);
        crate::jsonval::lemma_obj_get_remove(set1, "_id"@, "_collection"@);
        crate::jsonval::lemma_obj_get_set(fields, "_collection"@, ValModel::Str(c),
        "_collection"@);
        reveal_strlit("_id");
        reveal_strlit("_collection");
        assert("_id"@.len() == 3);
        assert("_collection"@.len() == 11);
        assert("_id"@ != "_collection"@);
    }

    /// Inserts a document into a collection.  The body must be a JSON
    /// object; `_collection` is injected and, when the body carries a
    /// string `_id`, that id is taken and stripped, otherwise a fresh id
    /// is generated.  The document is written to a freshly allocated
    /// page before the duplicate check, so a failed duplicate insert
    /// leaves one unreferenced data page behind.
    #[verifier::rlimit(100)]
    pub fn insert(&mut self, collection: &str, data: Val) -> (r: Result<
        String,
        KeraDBError,
    >)
        requires
            old(self).wf(),
            model_wf(data@),
        ensures
            final(self).wf(),
            final(self).page_size() == old(self).page_size(),
            old(self).raw().len() <= final(self).raw().len() <= old(self).raw().len() + 1,
            forall|m: int|
                0 <= m < old(self).raw().len() ==> final(self).raw()[m] == #[trigger] old(
                    self,
                ).raw()[m],
            consistent(*old(self)) ==> match r {
                Result::Err(e) => e is DuplicateKey || consistent(*final(self)),
                Result::Ok(_) => consistent(*final(self)),
            },
            // With a fresh id, failure is owed only for a duplicate
            // (which a random id can hit), given room for the page and
            // an encoding that fits whatever id is drawn.
            (given_doc_id(data@) is None && !insert_doc_invalid(data@) && old(
                self,
            ).raw().len() < u32::MAX && data@ is Obj && doc_fits(
                crate::serializer::sample_uuid_id(),
                data@->Obj_0,
                collection@,
                old(self).page_size(),
            )) ==> (r is Ok || (r matches Result::Err(e) && e is DuplicateKey)),
            r is Ok ==> final(self).ids_model(collection@).len() == old(self).ids_model(
                collection@,
            ).len() + 1,
            r is Ok ==> forall|c2: Seq<char>|
                c2 != collection@ ==> #[trigger] final(self).ids_model(c2) == old(
                    self,
                ).ids_model(c2),
            r is Ok ==> (final(self).collections_model() == old(self).collections_model()
                || final(self).collections_model() == old(self).collections_model().push(
                collection@,
            )),
            match r {
                Result::Ok(id) => {
                    &&& data@ is Obj
                    &&& old(self).raw().len() < u32::MAX
                    &&& old(self).find_loc(collection@, id@) is None
                    &&& (match given_doc_id(data@) {
                        Option::Some(s) => s == id@,
                        Option::None => crate::serializer::uuid_shape(id@),
                    })
                    &&& final(self).raw().len() == old(self).raw().len() + 1
                    &&& final(self).find_loc(collection@, id@) == Option::Some(
                        ((old(self).raw().len() as u32, 0usize)),
                    )
                    &&& raw_page_doc(final(self).raw()[old(self).raw().len() as int])
                        == Option::Some(
                        (id@, ValModel::Obj(stored_fields(data@->Obj_0, collection@))),
                    )
                    &&& forall|c2: Seq<char>, id2: Seq<char>|
                        !(c2 == collection@ && id2 == id@)
                            ==> #[trigger] final(self).find_loc(c2, id2) == old(
                            self,
                        ).find_loc(c2, id2)
                },
                Result::Err(e) => {
                    &&& (e is InvalidDocument || e is DuplicateKey || e is StorageError)
                    &&& (e is InvalidDocument <==> insert_doc_invalid(data@))
                    &&& forall|c2: Seq<char>, id2: Seq<char>|
                        #[trigger] final(self).find_loc(c2, id2) == old(self).find_loc(
                            c2,
                            id2,
                        )
                },
            },
            // With a caller-supplied id, success and the duplicate error
            // are owed exactly.
            match given_doc_id(data@) {
                Option::Some(s) => {
                    &&& (!insert_doc_invalid(data@) && old(self).raw().len() < u32::MAX
                        && doc_fits(s, data@->Obj_0, collection@, old(self).page_size())
                        && old(self).find_loc(collection@, s) is Some ==> (r
                        matches Result::Err(e) && e is DuplicateKey))
                    &&& (!insert_doc_invalid(data@) && old(self).raw().len() < u32::MAX
                        && doc_fits(s, data@->Obj_0, collection@, old(self).page_size())
                        && old(self).find_loc(collection@, s) is None ==> r is Ok)
                },
                Option::None => true,
            },
            // An encoding that cannot fit a page is owed the storage
            // error; with a fresh id the fit does not depend on which
            // id is drawn, so the stand-in id decides it.
            (!insert_doc_invalid(data@) && !(match given_doc_id(data@) {
                Option::Some(s) => doc_fits(s, data@->Obj_0, collection@, old(
                    self,
                ).page_size()),
                Option::None => doc_fits(
                    crate::serializer::sample_uuid_id(),
                    data@->Obj_0,
                    collection@,
                    old(self).page_size(),
                ),
            })) ==> (r matches Result::Err(e) && e is StorageError),
            // A duplicate-key failure is owed a witness: the collection
            // already held the id that was tried.
            (r matches Result::Err(e) && e is DuplicateKey) ==> (match given_doc_id(
                data@,
            ) {
                Option::Some(s) => old(self).find_loc(collection@, s) is Some,
                Option::None => exists|id2: Seq<char>|
                    crate::serializer::uuid_shape(id2) && (#[trigger] old(self).find_loc(
                        collection@,
                        id2,
                    )) is Some,
            }),
            // Every failure but the duplicate (which first wrote its
            // page) leaves the state exactly as it was.
            (r matches Result::Err(e) && !(e is DuplicateKey)) ==> *final(self) == *old(
                self,
            ),
    {
        let ghost orig_model = data@;
        if !data.is_object() {
            return Result::Err(
                KeraDBError::InvalidDocument("Document must be a JSON object".to_owned()),
            );
        }
        let ghost fields0 = data@->Obj_0;
        let mut body = data;
        body.set("_collection", Val::Str(collection.to_owned()));
        let id: String = match body.get("_id") {
            Option::Some(v) => match v {
                Val::Str(s) => s.clone(),
                _ => {
                    proof {
                        crate::jsonval::lemma_obj_get_set(
                            fields0,
                            "_collection"@,
                            ValModel::Str(collection@),
                            "_id"@,
                        );
                        reveal_strlit("_id");
                        reveal_strlit("_collection");
                        assert("_id"@ != "_collection"@);
                        assert(insert_doc_invalid(orig_model));
                    }
                    return Result::Err(
                        KeraDBError::InvalidDocument("_id must be a string".to_owned()),
                    );
                },
            },
            Option::None => {
                proof {
                    crate::jsonval::lemma_obj_get_set(
                        fields0,
                        "_collection"@,
                        ValModel::Str(collection@),
                        "_id"@,
                    );
                    assert("_id"@ != "_collection"@) by {
                        reveal_strlit("_id");
                        reveal_strlit("_collection");
                    }
                    assert(given_doc_id(orig_model) is None);
                }
                crate::outside::fresh_document_id()
            },
        };
        proof {
            crate::jsonval::lemma_obj_get_set(
                fields0,
                "_collection"@,
                ValModel::Str(collection@),
                "_id"@,
            );
            reveal_strlit("_id");
            reveal_strlit("_collection");
            assert("_id"@.len() == 3);
            assert("_collection"@.len() == 11);
            assert("_id"@ != "_collection"@);
            assert(!insert_doc_invalid(orig_model));
            if given_doc_id(orig_model) is Some {
                assert(given_doc_id(orig_model) == Option::Some(id@));
            } else {
                assert(crate::serializer::uuid_shape(id@));
            }
        }
        body.remove_key("_id");
        proof {
            assert(body@ == ValModel::Obj(stored_fields(fields0, collection@)));
            Self::lemma_stored_body(fields0, collection@);
        }
        let ghost stored = stored_fields(fields0, collection@);
        let doc = Document::with_id(id.clone(), body);
        let bytes = match Serializer::serialize(&doc) {
            Result::Ok(b) => b,
            Result::Err(e) => {
                proof {
                    assert(false);
                }
                return Result::Err(e);
            },
        };
        proof {
            assert(bytes@ == spec_serialize_doc(id@, stored));
        }
        let ps = self.pager.page_size();
        let ghost raw0 = self.raw();
        if bytes.len() > ps - PAGE_OVERHEAD - 4 {
            proof {
                assert(*self == *old(self));
                if given_doc_id(orig_model) is None {
                    assert(crate::serializer::uuid_shape(
                        crate::serializer::sample_uuid_id(),
                    )) by {
                        assert forall|i: int| 0 <= i < 36 implies
                            crate::serializer::uuid_char(
                            #[trigger] crate::serializer::sample_uuid_id()[i],
                        ) by {
                            assert(crate::serializer::sample_uuid_id()[i] == 'a');
                        }
                    }
                    crate::serializer::lemma_uuid_id_same_len(
                        id@,
                        crate::serializer::sample_uuid_id(),
                        stored,
                    );
                }
            }
            return Result::Err(
                KeraDBError::StorageError("Document too large for page".to_owned()),
            );
        }
        proof {
            assert(doc_fits(id@, fields0, collection@, old(self).page_size()));
            if given_doc_id(orig_model) is None {
                assert(crate::serializer::uuid_shape(
                    crate::serializer::sample_uuid_id(),
                )) by {
                    assert forall|i: int| 0 <= i < 36 implies
                        crate::serializer::uuid_char(
                        #[trigger] crate::serializer::sample_uuid_id()[i],
                    ) by {
                        assert(crate::serializer::sample_uuid_id()[i] == 'a');
                    }
                }
                crate::serializer::lemma_uuid_id_same_len(
                    id@,
                    crate::serializer::sample_uuid_id(),
                    stored,
                );
                assert(doc_fits(
                    crate::serializer::sample_uuid_id(),
                    fields0,
                    collection@,
                    old(self).page_size(),
                ));
            }
        }
        let n32 = match self.pager.allocate_page(PageType::Data) {
            Result::Ok(n) => n,
            Result::Err(e) => {
                proof {
                    assert(self.wf());
                }
                return Result::Err(e);
            },
        };
        proof {
            Self::lemma_wf_grow(*old(self), *self);
        }
        // Build the padded payload: the 32-bit length, the encoded
        // document, zeros to the page capacity.
        let mut payload = u32_to_le_bytes(bytes.len() as u32);
        let ghost len_le = payload@;
        let mut k: usize = 0;
        let nb = bytes.len();
        while k < nb
            invariant
                nb == bytes@.len(),
                k <= nb,
                payload@ == len_le + bytes@.take(k as int),
            decreases nb - k,
        {
            payload.push(bytes[k]);
            proof {
                assert(payload@ =~= len_le + bytes@.take(k as int + 1));
            }
            k = k + 1;
        }
        proof {
            assert(bytes@.take(nb as int) =~= bytes@);
        }
        let cap = ps - PAGE_OVERHEAD;
        let ghost before_pad = payload@;
        while payload.len() < cap
            invariant
                payload@.len() <= cap,
                before_pad.len() <= payload@.len(),
                payload@ == before_pad + Seq::new(
                    (payload@.len() - before_pad.len()) as nat,
                    |i: int| 0u8,
                ),
            decreases cap - payload@.len(),
        {
            payload.push(0);
            proof {
                assert(payload@ =~= before_pad + Seq::new(
                    (payload@.len() - before_pad.len()) as nat,
                    |i: int| 0u8,
                ));
            }
        }
        let page = Page::new(n32, PageType::Data, payload);
        let ghost raw1 = self.raw();
        match self.pager.write_page(&page) {
            Result::Ok(()) => {},
            Result::Err(e) => {
                proof {
                    assert(false);
                }
                return Result::Err(e);
            },
        }
        proof {
            self.pager.lemma_wf_bounds();
            lemma_auto_spec_u32_to_from_le_bytes();
            vstd::bytes::lemma_auto_spec_u64_to_from_le_bytes();
            assert(pad_payload(page.data@, old(self).page_size() - PAGE_OVERHEAD)
                == page.data@);
            crate::page::lemma_page_bytes_parts(PageType::Data, page.data@);
            let newraw = self.raw()[n32 as int];
            assert(newraw == crate::page::spec_page_bytes(PageType::Data, page.data@));
            assert(newraw.skip(PAGE_OVERHEAD as int) == page.data@);
            assert(page.data@.subrange(0, 4) =~= len_le);
            assert(page.data@.subrange(4, 4 + bytes@.len() as int) =~= bytes@);
            assert(bytes@.len() >= 8);
            crate::serializer::lemma_doc_round_trip(id@, stored);
            assert(page_payload_doc(page.data@) == Option::Some(
                (id@, ValModel::Obj(stored)),
            ));
            assert(raw_page_doc(newraw) == Option::Some((id@, ValModel::Obj(stored))));
            assert(body_collection(ValModel::Obj(stored)) == Option::Some(collection@));
            assert forall|m: int| 0 <= m < raw0.len() implies self.raw()[m]
                == #[trigger] raw0[m] by {}
        }
        let ghost pre_index = self.index;
        match self.index.insert(collection, id.clone(), n32, 0) {
            Result::Err(e) => {
                proof {
                    Self::lemma_wf_grow(*old(self), *self);
                    assert(index_find(pre_index, collection@, id@) is Some);
                    assert(pre_index == old(self).index);
                    assert(old(self).find_loc(collection@, id@) is Some);
                    if given_doc_id(orig_model) is None {
                        assert(crate::serializer::uuid_shape(id@));
                        assert(exists|id2: Seq<char>|
                            crate::serializer::uuid_shape(id2) && (#[trigger] old(
                                self,
                            ).find_loc(collection@, id2)) is Some);
                    }
                }
                return Result::Err(e);
            },
            Result::Ok(()) => {},
        }
        self.update_collection_metadata(collection, true);
        self.buffer_pool.put(page);
        proof {
            assert(self.find_loc(collection@, id@) == Option::Some((n32, 0usize)));
            assert(page_doc_key(self.raw()[n32 as int]) == Option::Some(
                (collection@, id@),
            ));
            assert forall|c2: Seq<char>, id2: Seq<char>|
                !(c2 == collection@ && id2 == id@) implies #[trigger] self.find_loc(
                c2,
                id2,
            ) == old(self).find_loc(c2, id2) by {
                assert(index_find(self.index, c2, id2) == index_find(pre_index, c2, id2));
            }
            Self::lemma_wf_insert(*old(self), *self, collection@, id@, n32);
            if consistent(*old(self)) {
                Self::lemma_consistent_insert(
                    *old(self),
                    *self,
                    collection@,
                    id@,
                    n32 as int,
                );
            }
        }
        Result::Ok(id)
    }
}


impl Executor {
    /// Well-formedness after rewriting the one page a pair owns (an
    /// update in place, or freeing it on delete) while nothing else
    /// moves.
    proof fn lemma_wf_rewrite(pre: Executor, post: Executor, n: u32, c: Seq<char>,
        id: Seq<char>)
        requires
            pre.wf(),
            pre.find_loc(c, id) == Option::Some((n, 0usize)),
            post.pager.wf(),
            post.index.wf(),
            post.buffer_pool.wf(),
            post.page_size() == pre.page_size(),
            post.raw().len() == pre.raw().len(),
            forall|m: int|
                0 <= m < pre.raw().len() && m != n ==> post.raw()[m] == #[trigger] pre.raw(
                )[m],
            forall|c2: Seq<char>, id2: Seq<char>|
                !(c2 == c && id2 == id) ==> #[trigger] post.find_loc(c2, id2)
                    == pre.find_loc(c2, id2),
            match post.find_loc(c, id) {
                Option::Some(l) => l == ((n, 0usize)) && page_doc_key(
                    post.raw()[n as int],
                ) == Option::Some((c, id)),
                Option::None => true,
            },
            forall|q: u32|
                (#[trigger] pool_lookup(post.buffer_pool, q)) is Some ==> q != n
                    && pool_lookup(post.buffer_pool, q) == pool_lookup(
                    pre.buffer_pool,
                    q,
                ),
        ensures
            post.wf(),
    {
        assert forall|c2: Seq<char>, id2: Seq<char>|
            (#[trigger] post.find_loc(c2, id2)) is Some implies {
            let loc = post.find_loc(c2, id2)->Some_0;
            &&& loc.0 < post.raw().len()
            &&& loc.1 == 0
            &&& raw_page_doc(post.raw()[loc.0 as int]) matches Option::Some(p) && p.0
                == id2 && body_collection(p.1) == Option::Some(c2)
        } by {
            let loc = post.find_loc(c2, id2)->Some_0;
            if c2 == c && id2 == id {
            } else {
                assert(pre.find_loc(c2, id2) == post.find_loc(c2, id2));
                if loc.0 == n {
                    // Two distinct pairs cannot own the same page: the
                    // page's stored key identifies its pair.
                    assert(page_doc_key(pre.raw()[n as int]) == Option::Some((c, id)));
                    assert(page_doc_key(pre.raw()[n as int]) == Option::Some((c2, id2)));
                    assert(false);
                } else {
                    assert(post.raw()[loc.0 as int] == pre.raw()[loc.0 as int]);
                }
            }
        }
        assert forall|q: u32|
            (#[trigger] pool_lookup(post.buffer_pool, q)) is Some implies {
            let pm = pool_lookup(post.buffer_pool, q)->Some_0;
            &&& q < post.raw().len()
            &&& page_bytes_ok(post.raw()[q as int])
            &&& Option::Some(pm.page_type) == spec_page_type_from(post.raw()[q as int][0])
            &&& pm.data == post.raw()[q as int].skip(PAGE_OVERHEAD as int)
            &&& pm.page_num == q
        } by {
            assert(pool_lookup(pre.buffer_pool, q) == pool_lookup(post.buffer_pool, q));
            assert(post.raw()[q as int] == pre.raw()[q as int]);
        }
    }

    /// Finds a document by id.  Succeeds exactly when the index holds
    /// the pair; only the cache may change.
    pub fn find_by_id(&mut self, collection: &str, doc_id: &str) -> (r: Result<
        Document,
        KeraDBError,
    >)
        requires
            old(self).wf(),
        ensures
            final(self).wf(),
            final(self).raw() == old(self).raw(),
            final(self).page_size() == old(self).page_size(),
            forall|c2: Seq<char>, id2: Seq<char>| #[trigger]
                final(self).find_loc(c2, id2) == old(self).find_loc(c2, id2),
            final(self).collections_model() == old(self).collections_model(),
            forall|c2: Seq<char>| #[trigger] final(self).ids_model(c2) == old(
                self,
            ).ids_model(c2),
            consistent(*old(self)) ==> consistent(*final(self)),
            r is Ok <==> old(self).find_loc(collection@, doc_id@) is Some,
            match r {
                Result::Ok(doc) => {
                    &&& doc.id@ == doc_id@
                    &&& old(self).find_loc(collection@, doc_id@)
                        matches Option::Some(loc) && raw_page_doc(
                        old(self).raw()[loc.0 as int],
                    ) == Option::Some((doc.id@, doc.data@))
                },
                Result::Err(e) => e is DocumentNotFound,
            },
    {
        let ghost pre = *self;
        let entry = match self.index.find(collection, doc_id) {
            Option::Some(e) => e,
            Option::None => {
                return Result::Err(KeraDBError::DocumentNotFound(doc_id.to_owned()));
            },
        };
        let n = entry.page_num;
        let page = match self.buffer_pool.get(n) {
            Option::Some(p) => p,
            Option::None => {
                let p = match self.pager.read_page(n) {
                    Result::Ok(p) => p,
                    Result::Err(_) => {
                        proof {
                            assert(false);
                        }
                        return Result::Err(KeraDBError::ChecksumMismatch);
                    },
                };
                let cached = p.clone_page();
                let ghost gpm = page_model(cached);
                self.buffer_pool.put(cached);
                proof {
                    assert(gpm.data == p.data@ && gpm.page_type == p.page_type
                        && gpm.page_num == n);
                    assert forall|q: u32|
                        (#[trigger] pool_lookup(self.buffer_pool, q)) is Some implies {
                        let pm = pool_lookup(self.buffer_pool, q)->Some_0;
                        &&& q < self.raw().len()
                        &&& page_bytes_ok(self.raw()[q as int])
                        &&& Option::Some(pm.page_type) == spec_page_type_from(
                            self.raw()[q as int][0],
                        )
                        &&& pm.data == self.raw()[q as int].skip(PAGE_OVERHEAD as int)
                        &&& pm.page_num == q
                    } by {
                        if q != n {
                            assert(pool_lookup(self.buffer_pool, q) == pool_lookup(
                                pre.buffer_pool,
                                q,
                            ));
                        } else {
                            assert(pool_lookup(self.buffer_pool, n) == Option::Some(gpm));
                        }
                    }
                    assert forall|c2: Seq<char>, id2: Seq<char>|
                        (#[trigger] self.find_loc(c2, id2)) is Some implies {
                        let loc = self.find_loc(c2, id2)->Some_0;
                        &&& loc.0 < self.raw().len()
                        &&& loc.1 == 0
                        &&& raw_page_doc(self.raw()[loc.0 as int])
                            matches Option::Some(p2) && p2.0 == id2 && body_collection(
                            p2.1,
                        ) == Option::Some(c2)
                    } by {
                        assert(pre.find_loc(c2, id2) == self.find_loc(c2, id2));
                    }
                    assert(self.wf());
                }
                p
            },
        };
        match Self::extract_document_from_page(&page) {
            Result::Ok(doc) => {
                proof {
                    assert(raw_page_doc(pre.raw()[n as int]) == Option::Some(
                        (doc.id@, doc.data@),
                    ));
                }
                Result::Ok(doc)
            },
            Result::Err(_) => {
                proof {
                    assert(false);
                }
                Result::Err(KeraDBError::ChecksumMismatch)
            },
        }
    }

    /// Replaces a document in place on its page.  The body must be an
    /// object and the pair must exist; the new encoding must fit the
    /// page.  `_collection` is injected and any `_id` field stripped, as
    /// on insert.
    #[verifier::rlimit(100)]
    pub fn update(&mut self, collection: &str, doc_id: &str, data: Val) -> (r: Result<
        Document,
        KeraDBError,
    >)
        requires
            old(self).wf(),
            model_wf(data@),
        ensures
            final(self).wf(),
            final(self).page_size() == old(self).page_size(),
            final(self).raw().len() == old(self).raw().len(),
            forall|c2: Seq<char>, id2: Seq<char>| #[trigger]
                final(self).find_loc(c2, id2) == old(self).find_loc(c2, id2),
            final(self).collections_model() == old(self).collections_model(),
            consistent(*old(self)) ==> consistent(*final(self)),
            r is Ok <==> (data@ is Obj && old(self).find_loc(collection@, doc_id@) is Some
                && doc_fits(doc_id@, data@->Obj_0, collection@, old(self).page_size())),
            match r {
                Result::Ok(doc) => {
                    &&& doc.id@ == doc_id@
                    &&& doc.data@ == ValModel::Obj(
                        stored_fields(data@->Obj_0, collection@),
                    )
                    &&& old(self).find_loc(collection@, doc_id@)
                        matches Option::Some(loc) && raw_page_doc(
                        final(self).raw()[loc.0 as int],
                    ) == Option::Some((doc_id@, doc.data@)) && (forall|m: int|
                        0 <= m < old(self).raw().len() && m != loc.0
                            ==> final(self).raw()[m] == #[trigger] old(self).raw()[m])
                    &&& forall|c2: Seq<char>, id2: Seq<char>|
                        !(c2 == collection@ && id2 == doc_id@) ==> final(self).body_at(
                            c2,
                            id2,
                        ) == #[trigger] old(self).body_at(c2, id2)
                },
                Result::Err(e) => {
                    &&& final(self).raw() == old(self).raw()
                    &&& (e is InvalidDocument <==> !(data@ is Obj))
                    &&& ((data@ is Obj && old(self).find_loc(collection@, doc_id@)
                        is None) <==> e is DocumentNotFound)
                    &&& (e is InvalidDocument || e is DocumentNotFound
                        || e is StorageError)
                },
            },
    {
        let ghost pre = *self;
        if !data.is_object() {
            return Result::Err(
                KeraDBError::InvalidDocument("Document must be a JSON object".to_owned()),
            );
        }
        let ghost fields0 = data@->Obj_0;
        let entry = match self.index.find(collection, doc_id) {
            Option::Some(e) => e,
            Option::None => {
                return Result::Err(KeraDBError::DocumentNotFound(doc_id.to_owned()));
            },
        };
        let n = entry.page_num;
        proof {
            assert(pre.find_loc(collection@, doc_id@) == Option::Some(
                (n, entry.offset),
            ));
            assert(entry.offset == 0);
        }
        let mut body = data;
        body.set("_collection", Val::Str(collection.to_owned()));
        body.remove_key("_id");
        proof {
            assert(body@ == ValModel::Obj(stored_fields(fields0, collection@)));
            Self::lemma_stored_body(fields0, collection@);
        }
        let ghost stored = stored_fields(fields0, collection@);
        let doc = Document::with_id(doc_id.to_owned(), body);
        let bytes = match Serializer::serialize(&doc) {
            Result::Ok(b) => b,
            Result::Err(e) => {
                proof {
                    assert(false);
                }
                return Result::Err(e);
            },
        };
        proof {
            assert(bytes@ == spec_serialize_doc(doc_id@, stored));
            self.pager.lemma_wf_bounds();
        }
        let ps = self.pager.page_size();
        if bytes.len() > ps - PAGE_OVERHEAD - 4 {
            return Result::Err(
                KeraDBError::StorageError("Updated document too large for page".to_owned()),
            );
        }
        let mut payload = u32_to_le_bytes(bytes.len() as u32);
        let ghost len_le = payload@;
        let mut k: usize = 0;
        let nb = bytes.len();
        while k < nb
            invariant
                nb == bytes@.len(),
                k <= nb,
                payload@ == len_le + bytes@.take(k as int),
            decreases nb - k,
        {
            payload.push(bytes[k]);
            proof {
                assert(payload@ =~= len_le + bytes@.take(k as int + 1));
            }
            k = k + 1;
        }
        proof {
            assert(bytes@.take(nb as int) =~= bytes@);
        }
        let cap = ps - PAGE_OVERHEAD;
        let ghost before_pad = payload@;
        while payload.len() < cap
            invariant
                payload@.len() <= cap,
                before_pad.len() <= payload@.len(),
                payload@ == before_pad + Seq::new(
                    (payload@.len() - before_pad.len()) as nat,
                    |i: int| 0u8,
                ),
            decreases cap - payload@.len(),
        {
            payload.push(0);
            proof {
                assert(payload@ =~= before_pad + Seq::new(
                    (payload@.len() - before_pad.len()) as nat,
                    |i: int| 0u8,
                ));
            }
        }
        let page = Page::new(n, PageType::Data, payload);
        match self.pager.write_page(&page) {
            Result::Ok(()) => {},
            Result::Err(e) => {
                proof {
                    assert(false);
                }
                return Result::Err(e);
            },
        }
        self.buffer_pool.remove(n);
        self.update_collection_metadata(collection, true);
        proof {
            lemma_auto_spec_u32_to_from_le_bytes();
            vstd::bytes::lemma_auto_spec_u64_to_from_le_bytes();
            assert(pad_payload(page.data@, pre.page_size() - PAGE_OVERHEAD)
                == page.data@);
            crate::page::lemma_page_bytes_parts(PageType::Data, page.data@);
            let newraw = self.raw()[n as int];
            assert(newraw == crate::page::spec_page_bytes(PageType::Data, page.data@));
            assert(newraw.skip(PAGE_OVERHEAD as int) == page.data@);
            assert(page.data@.subrange(0, 4) =~= len_le);
            assert(page.data@.subrange(4, 4 + bytes@.len() as int) =~= bytes@);
            assert(bytes@.len() >= 8);
            crate::serializer::lemma_doc_round_trip(doc_id@, stored);
            assert(page_payload_doc(page.data@) == Option::Some(
                (doc_id@, ValModel::Obj(stored)),
            ));
            assert(raw_page_doc(newraw) == Option::Some((doc_id@, ValModel::Obj(stored))));
            assert(body_collection(ValModel::Obj(stored)) == Option::Some(collection@));
            assert(page_doc_key(newraw) == Option::Some((collection@, doc_id@)));
            assert forall|q: u32|
                (#[trigger] pool_lookup(self.buffer_pool, q)) is Some implies q != n
                && pool_lookup(self.buffer_pool, q) == pool_lookup(
                pre.buffer_pool,
                q,
            ) by {
                if q == n {
                    assert(pool_lookup(self.buffer_pool, n) is None);
                } else {
                    assert(pool_lookup(self.buffer_pool, q) == pool_lookup(
                        pre.buffer_pool,
                        q,
                    ));
                }
            }
            assert forall|c2: Seq<char>, id2: Seq<char>| #[trigger] self.find_loc(
                c2,
                id2,
            ) == pre.find_loc(c2, id2) by {
                assert(self.index == pre.index);
            }
            Self::lemma_wf_rewrite(pre, *self, n, collection@, doc_id@);
            if consistent(pre) {
                Self::lemma_consistent_rewrite(pre, *self, n, collection@, doc_id@);
            }
            assert forall|c2: Seq<char>, id2: Seq<char>|
                !(c2 == collection@ && id2 == doc_id@) implies self.body_at(c2, id2)
                == #[trigger] pre.body_at(c2, id2) by {
                assert(self.find_loc(c2, id2) == pre.find_loc(c2, id2));
                match pre.find_loc(c2, id2) {
                    Option::Some(l2) => {
                        if l2.0 == n {
                            // Two distinct pairs cannot own the same
                            // page: its stored key identifies its pair.
                            assert(page_doc_key(pre.raw()[n as int]) == Option::Some(
                                (collection@, doc_id@),
                            ));
                            assert(raw_page_doc(pre.raw()[l2.0 as int])
                                matches Option::Some(p) && p.0 == id2
                                && body_collection(p.1) == Option::Some(c2));
                            assert(false);
                        } else {
                            assert(self.raw()[l2.0 as int] == pre.raw()[l2.0 as int]);
                        }
                    },
                    Option::None => {},
                }
            }
        }
        Result::Ok(doc)
    }

    /// Deletes a document: removes it from the index and frees its
    /// page (kind `Free`, zeroed payload).  Returns the document that
    /// was stored.
    #[verifier::rlimit(100)]
    pub fn delete(&mut self, collection: &str, doc_id: &str) -> (r: Result<
        Document,
        KeraDBError,
    >)
        requires
            old(self).wf(),
        ensures
            final(self).wf(),
            final(self).page_size() == old(self).page_size(),
            final(self).raw().len() == old(self).raw().len(),
            final(self).collections_model() == old(self).collections_model(),
            consistent(*old(self)) ==> consistent(*final(self)),
            r is Ok <==> old(self).find_loc(collection@, doc_id@) is Some,
            r is Ok ==> final(self).ids_model(collection@).len() == old(self).ids_model(
                collection@,
            ).len() - 1,
            forall|c2: Seq<char>|
                c2 != collection@ ==> #[trigger] final(self).ids_model(c2) == old(
                    self,
                ).ids_model(c2),
            match r {
                Result::Ok(doc) => {
                    &&& doc.id@ == doc_id@
                    &&& old(self).find_loc(collection@, doc_id@)
                        matches Option::Some(loc) && raw_page_doc(
                        old(self).raw()[loc.0 as int],
                    ) == Option::Some((doc.id@, doc.data@)) && raw_page_doc(
                        final(self).raw()[loc.0 as int],
                    ) is None && final(self).raw()[loc.0 as int] == spec_page_bytes(
                        PageType::Free,
                        pad_payload(Seq::empty(), old(self).page_size() - PAGE_OVERHEAD),
                    ) && (forall|m: int|
                        0 <= m < old(self).raw().len() && m != loc.0
                            ==> final(self).raw()[m] == #[trigger] old(self).raw()[m])
                    &&& final(self).find_loc(collection@, doc_id@) is None
                    &&& forall|c2: Seq<char>, id2: Seq<char>|
                        !(c2 == collection@ && id2 == doc_id@)
                            ==> #[trigger] final(self).find_loc(c2, id2) == old(
                            self,
                        ).find_loc(c2, id2)
                },
                Result::Err(e) => e is DocumentNotFound && forall|c2: Seq<char>, id2: Seq<
                    char,
                >| #[trigger] final(self).find_loc(c2, id2) == old(self).find_loc(
                    c2,
                    id2,
                ),
            },
    {
        let ghost pre = *self;
        let doc = match self.find_by_id(collection, doc_id) {
            Result::Ok(d) => d,
            Result::Err(e) => {
                return Result::Err(e);
            },
        };
        let ghost mid = *self;
        let entry = match self.index.remove(collection, doc_id) {
            Option::Some(e) => e,
            Option::None => {
                proof {
                    assert(false);
                }
                return Result::Err(KeraDBError::DocumentNotFound(doc_id.to_owned()));
            },
        };
        let n = entry.page_num;
        proof {
            self.pager.lemma_wf_bounds();
            assert(pre.find_loc(collection@, doc_id@) == Option::Some((n, 0usize)));
        }
        let empty: Vec<u8> = Vec::new();
        let page = Page::new(n, PageType::Free, empty);
        match self.pager.write_page(&page) {
            Result::Ok(()) => {},
            Result::Err(e) => {
                proof {
                    assert(false);
                }
                return Result::Err(e);
            },
        }
        self.buffer_pool.remove(n);
        self.update_collection_metadata(collection, false);
        proof {
            crate::page::lemma_page_bytes_parts(
                PageType::Free,
                pad_payload(Seq::empty(), pre.page_size() - PAGE_OVERHEAD),
            );
            let newraw = self.raw()[n as int];
            assert(spec_page_type_from(newraw[0]) == Option::Some(PageType::Free));
            assert(raw_page_doc(newraw) is None);
            assert(mid.find_loc(collection@, doc_id@) == Option::Some((n, 0usize)));
            assert forall|q: u32|
                (#[trigger] pool_lookup(self.buffer_pool, q)) is Some implies q != n
                && pool_lookup(self.buffer_pool, q) == pool_lookup(
                mid.buffer_pool,
                q,
            ) by {
                if q == n {
                    assert(pool_lookup(self.buffer_pool, n) is None);
                } else {
                    assert(pool_lookup(self.buffer_pool, q) == pool_lookup(
                        mid.buffer_pool,
                        q,
                    ));
                }
            }
            Self::lemma_wf_rewrite(mid, *self, n, collection@, doc_id@);
            assert forall|c2: Seq<char>, id2: Seq<char>|
                !(c2 == collection@ && id2 == doc_id@) implies #[trigger] self.find_loc(
                c2,
                id2,
            ) == old(self).find_loc(c2, id2) by {
                assert(self.find_loc(c2, id2) == mid.find_loc(c2, id2));
                assert(mid.find_loc(c2, id2) == old(self).find_loc(c2, id2));
            }
            assert(mid.ids_model(collection@) == old(self).ids_model(collection@));
            assert(crate::index::index_bucket(mid.index, collection@) is Some) by {
                crate::assoc::lemma_assoc_some_index(
                    crate::index::index_model(mid.index),
                    collection@,
                );
            }
            assert(self.ids_model(collection@).len() == old(self).ids_model(
                collection@,
            ).len() - 1);
            assert forall|c2: Seq<char>|
                c2 != collection@ implies #[trigger] self.ids_model(c2) == old(
                self,
            ).ids_model(c2) by {
                assert(crate::index::index_bucket(self.index, c2)
                    == crate::index::index_bucket(mid.index, c2));
                assert(mid.ids_model(c2) == old(self).ids_model(c2));
            }
            if consistent(*old(self)) {
                assert(consistent(mid)) by {
                    assert(mid.raw() == old(self).raw());
                    assert forall|m: int|
                        0 <= m < mid.raw().len() implies match #[trigger] page_doc_key(
                        mid.raw()[m],
                    ) {
                        Option::Some(k) => mid.find_loc(k.0, k.1) == Option::Some(
                            (m as u32, 0usize),
                        ),
                        Option::None => true,
                    } by {
                        match page_doc_key(mid.raw()[m]) {
                            Option::Some(k) => {
                                assert(mid.find_loc(k.0, k.1) == old(self).find_loc(
                                    k.0,
                                    k.1,
                                ));
                            },
                            Option::None => {},
                        }
                    }
                }
                Self::lemma_consistent_free(mid, *self, n, collection@, doc_id@);
            }
        }
        Result::Ok(doc)
    }

    /// All documents of a collection, in index order, after `skip` and
    /// at most `limit` of them.
    pub fn find_all(&mut self, collection: &str, limit: Option<usize>, skip: Option<usize>)
        -> (r: Result<Vec<Document>, KeraDBError>)
        requires
            old(self).wf(),
        ensures
            final(self).wf(),
            final(self).raw() == old(self).raw(),
            final(self).page_size() == old(self).page_size(),
            consistent(*old(self)) ==> consistent(*final(self)),
            forall|c2: Seq<char>, id2: Seq<char>| #[trigger]
                final(self).find_loc(c2, id2) == old(self).find_loc(c2, id2),
            final(self).collections_model() == old(self).collections_model(),
            r is Ok,
            match r {
                Result::Ok(docs) => {
                    let ids = old(self).ids_model(collection@);
                    let start = if (match skip {
                        Option::Some(s) => s as int,
                        Option::None => 0,
                    }) < ids.len() {
                        (match skip {
                            Option::Some(s) => s as int,
                            Option::None => 0,
                        })
                    } else {
                        ids.len() as int
                    };
                    let taken = ids.skip(start).take(
                        if (match limit {
                            Option::Some(l) => l as int,
                            Option::None => ids.len() as int,
                        }) < ids.len() - start {
                            (match limit {
                                Option::Some(l) => l as int,
                                Option::None => ids.len() as int,
                            })
                        } else {
                            ids.len() - start
                        },
                    );
                    &&& docs@.len() == taken.len()
                    &&& forall|i: int|
                        0 <= i < taken.len() ==> (#[trigger] docs@[i]).id@ == taken[i]
                    &&& forall|i: int|
                        0 <= i < taken.len() ==> (#[trigger] docs@[i]).data@ == old(
                            self,
                        ).body_at(collection@, taken[i])
                },
                Result::Err(_) => false,
            },
    {
        let ids = self.index.list_ids(collection);
        let skip_n0 = match skip {
            Option::Some(s) => s,
            Option::None => 0,
        };
        let skip_n = if skip_n0 < ids.len() {
            skip_n0
        } else {
            ids.len()
        };
        let rest = ids.len() - skip_n;
        let limit_n0 = match limit {
            Option::Some(l) => l,
            Option::None => ids.len(),
        };
        let limit_n = if limit_n0 < rest {
            limit_n0
        } else {
            rest
        };
        let ghost gtaken = old(self).ids_model(collection@).skip(skip_n as int).take(
            limit_n as int,
        );
        let mut docs: Vec<Document> = Vec::new();
        let mut k: usize = 0;
        while k < limit_n
            invariant
                self.wf(),
                self.raw() == old(self).raw(),
                self.page_size() == old(self).page_size(),
                forall|c2: Seq<char>, id2: Seq<char>| #[trigger] self.find_loc(c2, id2)
                    == old(self).find_loc(c2, id2),
                self.collections_model() == old(self).collections_model(),
                forall|c2: Seq<char>| #[trigger] self.ids_model(c2) == old(self).ids_model(
                    c2,
                ),
                k <= limit_n,
                skip_n + limit_n <= ids@.len(),
                ids@.len() <= usize::MAX,
                ids@.len() == old(self).ids_model(collection@).len(),
                forall|i: int|
                    0 <= i < ids@.len() ==> (#[trigger] ids@[i])@ == old(self).ids_model(
                        collection@,
                    )[i],
                gtaken == old(self).ids_model(collection@).skip(skip_n as int).take(
                    limit_n as int,
                ),
                gtaken.len() == limit_n,
                docs@.len() == k,
                forall|i: int| 0 <= i < k ==> (#[trigger] docs@[i]).id@ == gtaken[i],
                forall|i: int|
                    0 <= i < k ==> (#[trigger] docs@[i]).data@ == old(self).body_at(
                        collection@,
                        gtaken[i],
                    ),
            decreases limit_n - k,
        {
            let ghost looped = *self;
            let id = &ids[skip_n + k];
            match self.find_by_id(collection, id.as_str()) {
                Result::Ok(d) => {
                    proof {
                        let loc = looped.find_loc(collection@, id@)->Some_0;
                        assert(raw_page_doc(looped.raw()[loc.0 as int]) == Option::Some(
                            (d.id@, d.data@),
                        ));
                        assert(old(self).find_loc(collection@, id@) == Option::Some(loc));
                        assert(old(self).raw()[loc.0 as int] == looped.raw()[
                            loc.0 as int]);
                        assert(d.data@ == old(self).body_at(collection@, id@));
                        assert(gtaken[k as int] == id@);
                    }
                    docs.push(d);
                },
                Result::Err(_) => {
                    proof {
                        let i = (skip_n + k) as int;
                        assert(old(self).ids_model(collection@)[i] == id@);
                        assert(self.ids_model(collection@).len() > 0);
                        assert(crate::index::index_bucket(self.index, collection@)
                            is Some);
                        crate::index::lemma_index_id_found(self.index, collection@, i);
                        assert(self.find_loc(collection@, id@) is Some);
                        assert(false);
                    }
                },
            }
            k = k + 1;
        }
        proof {
            if consistent(*old(self)) {
                assert forall|n: int| 0 <= n < self.raw().len() implies match
                #[trigger] page_doc_key(self.raw()[n]) {
                    Option::Some(key) => self.find_loc(key.0, key.1) == Option::Some(
                        (n as u32, 0usize),
                    ),
                    Option::None => true,
                } by {
                    assert(self.raw()[n] == old(self).raw()[n]);
                    match page_doc_key(old(self).raw()[n]) {
                        Option::Some(key) => {
                            assert(self.find_loc(key.0, key.1) == old(self).find_loc(
                                key.0,
                                key.1,
                            ));
                        },
                        Option::None => {},
                    }
                }
            }
        }
        Result::Ok(docs)
    }

    /// How many documents a collection holds.
    pub fn count(&self, collection: &str) -> (r: usize)
        requires
            self.wf(),
        ensures
            r == self.ids_model(collection@).len(),
    {
        self.index.count(collection)
    }

    /// Every collection name with its document count.
    pub fn list_collections(&self) -> (r: Vec<(String, usize)>)
        requires
            self.wf(),
        ensures
            r@.len() == self.collections_model().len(),
            forall|i: int|
                0 <= i < r@.len() ==> (#[trigger] r@[i]).0@ == self.collections_model()[i]
                    && r@[i].1 == self.ids_model(self.collections_model()[i]).len(),
    {
        let names = self.index.list_collections();
        let mut out: Vec<(String, usize)> = Vec::new();
        let mut k: usize = 0;
        while k < names.len()
            invariant
                self.wf(),
                names@.len() == self.collections_model().len(),
                forall|i: int|
                    0 <= i < names@.len() ==> (#[trigger] names@[i])@
                        == self.collections_model()[i],
                k <= names@.len(),
                out@.len() == k,
                forall|i: int|
                    0 <= i < k ==> (#[trigger] out@[i]).0@ == self.collections_model()[i]
                        && out@[i].1 == self.ids_model(self.collections_model()[i]).len(),
            decreases names@.len() - k,
        {
            let name = names[k].clone();
            let cnt = self.index.count(name.as_str());
            out.push((name, cnt));
            k = k + 1;
        }
        out
    }

    /// The whole file image, for the host to persist.
    pub fn to_file_bytes(&self) -> (r: Vec<u8>)
        requires
            self.wf(),
        ensures
            r@ == self.file_model(),
    {
        self.pager.to_file_bytes()
    }

    /// The bytes `to_file_bytes` renders.
    pub closed spec fn file_model(self) -> Seq<u8> {
        spec_file_bytes(self.pager)
    }

    /// The rendered file image reads back to the same pages: the header
    /// validates and declares this executor's page size and count, and
    /// every page's chunk of the image is its raw bytes — the form
    /// [`Pager::from_file_bytes`] recovers them in at open.
    pub proof fn lemma_file_model_round_trip(self)
        requires
            self.wf(),
        ensures
            crate::page::header_ok(self.file_model()),
            crate::page::header_page_size(self.file_model()) == self.page_size(),
            self.page_size() >= 9,
            crate::page::header_page_count(self.file_model()) == self.raw().len(),
            forall|n: int|
                0 <= n < self.raw().len() ==> #[trigger] crate::pager::chunk_at(
                    self.file_model(),
                    self.page_size(),
                    n,
                ) == self.raw()[n],
    {
        crate::pager::lemma_file_bytes_round_trip(self.pager);
    }
}


impl Executor {
    /// The persistence law: reopening the rendered file restores every
    /// document.  For an executor whose pages hold no duplicate (no
    /// insert ever failed on a duplicate id, which leaks a copy) and
    /// whose index covers its pages, an executor rebuilt over the same
    /// raw pages — as [`Pager::from_file_bytes`] recovers them from
    /// [`Executor::to_file_bytes`]'s image — finds exactly the same
    /// documents, each with the same stored body.
    pub proof fn lemma_reopen_preserves_documents(e1: Executor, e2: Executor)
        requires
            e1.wf(),
            e2.wf(),
            docs_unique(e1.raw()),
            index_complete(e1),
            index_complete(e2),
            e2.raw() == e1.raw(),
        ensures
            forall|c: Seq<char>, id: Seq<char>| #[trigger] e2.find_loc(c, id)
                == e1.find_loc(c, id),
            forall|c: Seq<char>, id: Seq<char>|
                #[trigger] e1.find_loc(c, id) is Some ==> e2.body_at(c, id) == e1.body_at(
                    c,
                    id,
                ),
    {
        assert forall|c: Seq<char>, id: Seq<char>| #[trigger] e2.find_loc(c, id)
            == e1.find_loc(c, id) by {
            match e1.find_loc(c, id) {
                Option::Some(loc) => {
                    assert(page_doc_key(e1.raw()[loc.0 as int]) == Option::Some((c, id)));
                    assert(e2.find_loc(c, id) == Option::Some(
                        ((loc.0 as int) as u32, 0usize),
                    ));
                },
                Option::None => {
                    match e2.find_loc(c, id) {
                        Option::Some(loc2) => {
                            assert(page_doc_key(e2.raw()[loc2.0 as int]) == Option::Some(
                                (c, id),
                            ));
                            assert(e1.find_loc(c, id) == Option::Some(
                                ((loc2.0 as int) as u32, 0usize),
                            ));
                            assert(false);
                        },
                        Option::None => {},
                    }
                },
            }
        }
    }
}

} // verus!

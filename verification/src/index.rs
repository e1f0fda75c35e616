//! The primary index: `collection → (document id → page locator)`.
//!
//! The index holds no authoritative data — it is rebuilt from the data
//! pages at open — but every document operation consults it.  Inserting
//! an id that a collection already holds is rejected.

use vstd::prelude::*;
use crate::assoc::{assoc_get, assoc_unique, assoc_keys, lemma_assoc_get_found,
    lemma_assoc_get_absent, lemma_assoc_none_no_key, lemma_assoc_get_update,
    lemma_assoc_get_update_same, lemma_assoc_get_push, lemma_assoc_get_remove,
    lemma_assoc_some_index};
use crate::error::KeraDBError;
use crate::strutil::str_eq;

verus! {

/// One index entry: the document id and where its page lives.
#[derive(Debug)]
pub struct IndexEntry {
    pub doc_id: String,
    pub page_num: u32,
    pub offset: usize,
}

/// The primary index.
pub struct Index {
    buckets: Vec<(String, Vec<IndexEntry>)>,
}

/// A locator: a page number and an offset within the page.
pub type Loc = (u32, usize);

/// The model of one collection's entries: id → locator, in order.
pub closed spec fn bucket_model(entries: Seq<IndexEntry>) -> Seq<(Seq<char>, Loc)> {
    Seq::new(entries.len(), |i: int| (entries[i].doc_id@, (entries[i].page_num,
    entries[i].offset)))
}

/// The model of the whole index: collection → its bucket, in order.
pub closed spec fn index_model(ix: Index) -> Seq<(Seq<char>, Seq<(Seq<char>, Loc)>)> {
    Seq::new(ix.buckets@.len(), |i: int| (ix.buckets@[i].0@, bucket_model(
    ix.buckets@[i].1@)))
}

/// The locator the index holds for `(collection, id)`, if any.
pub open spec fn index_find(ix: Index, c: Seq<char>, id: Seq<char>) -> Option<Loc> {
    match assoc_get(index_model(ix), c) {
        Option::Some(es) => assoc_get(es, id),
        Option::None => Option::None,
    }
}

/// The collections the index knows, in order of first insertion.
pub open spec fn index_collections(ix: Index) -> Seq<Seq<char>> {
    assoc_keys(index_model(ix))
}

/// The bucket of a collection, if any.
pub open spec fn index_bucket(ix: Index, c: Seq<char>) -> Option<Seq<(Seq<char>, Loc)>> {
    assoc_get(index_model(ix), c)
}

/// An id listed in a collection's bucket is found by the index.
pub proof fn lemma_index_id_found(ix: Index, c: Seq<char>, i: int)
    requires
        index_bucket(ix, c) is Some,
        0 <= i < index_bucket(ix, c)->Some_0.len(),
    ensures
        index_find(ix, c, index_bucket(ix, c)->Some_0[i].0) is Some,
{
    crate::assoc::lemma_assoc_key_some(index_bucket(ix, c)->Some_0, i);
}

impl Index {
    /// Key uniqueness at both levels.
    pub open spec fn wf(self) -> bool {
        &&& assoc_unique(index_model(self))
        &&& forall|i: int|
            0 <= i < index_model(self).len() ==> assoc_unique(
                (#[trigger] index_model(self)[i]).1,
            )
    }

    /// An empty index.
    pub fn new() -> (r: Index)
        ensures
            r.wf(),
            index_model(r).len() == 0,
    {
        let r = Index { buckets: Vec::new() };
        proof {
            assert(index_model(r) =~= Seq::<(Seq<char>, Seq<(Seq<char>, Loc)>)>::empty());
        }
        r
    }

    /// The position of a collection's bucket.
    fn find_bucket(&self, collection: &str) -> (r: Option<usize>)
        requires
            self.wf(),
        ensures
            match r {
                Option::Some(i) => {
                    &&& i < index_model(*self).len()
                    &&& index_model(*self)[i as int].0 == collection@
                    &&& index_bucket(*self, collection@) == Option::Some(
                        index_model(*self)[i as int].1,
                    )
                },
                Option::None => index_bucket(*self, collection@) is None,
            },
    {
        let ghost m = index_model(*self);
        let mut k: usize = 0;
        while k < self.buckets.len()
            invariant
                self.wf(),
                m == index_model(*self),
                k <= self.buckets@.len(),
                forall|j: int| 0 <= j < k ==> (#[trigger] m[j]).0 != collection@,
            decreases self.buckets@.len() - k,
        {
            if str_eq(self.buckets[k].0.as_str(), collection) {
                proof {
                    lemma_assoc_get_found(m, collection@, k as int);
                }
                return Option::Some(k);
            }
            k = k + 1;
        }
        proof {
            lemma_assoc_get_absent(m, collection@);
        }
        Option::None
    }

    /// The position of `id` inside a bucket.
    fn find_in_bucket(entries: &Vec<IndexEntry>, doc_id: &str) -> (r: Option<usize>)
        requires
            assoc_unique(bucket_model(entries@)),
        ensures
            match r {
                Option::Some(i) => {
                    &&& i < bucket_model(entries@).len()
                    &&& bucket_model(entries@)[i as int].0 == doc_id@
                    &&& assoc_get(bucket_model(entries@), doc_id@) == Option::Some(
                        bucket_model(entries@)[i as int].1,
                    )
                },
                Option::None => assoc_get(bucket_model(entries@), doc_id@) is None,
            },
    {
        let ghost m = bucket_model(entries@);
        let mut k: usize = 0;
        while k < entries.len()
            invariant
                assoc_unique(m),
                m == bucket_model(entries@),
                k <= entries@.len(),
                forall|j: int| 0 <= j < k ==> (#[trigger] m[j]).0 != doc_id@,
            decreases entries@.len() - k,
        {
            if str_eq(entries[k].doc_id.as_str(), doc_id) {
                proof {
                    lemma_assoc_get_found(m, doc_id@, k as int);
                }
                return Option::Some(k);
            }
            k = k + 1;
        }
        proof {
            lemma_assoc_get_absent(m, doc_id@);
        }
        Option::None
    }

    /// Registers a document's locator.  Fails with a duplicate-key error
    /// exactly when the collection already holds the id; nothing changes
    /// then.  On success only the one binding is added, and the list of
    /// collections gains `collection` at the end if it was new.
    pub fn insert(&mut self, collection: &str, doc_id: String, page_num: u32, offset: usize)
        -> (r: Result<(), KeraDBError>)
        requires
            old(self).wf(),
        ensures
            final(self).wf(),
            r is Ok <==> index_find(*old(self), collection@, doc_id@) is None,
            match r {
                Result::Ok(()) => {
                    &&& index_find(*final(self), collection@, doc_id@) == Option::Some(
                        (page_num, offset),
                    )
                    &&& index_bucket(*final(self), collection@) matches Option::Some(es2)
                        && es2.len() == (match index_bucket(*old(self), collection@) {
                        Option::Some(es) => es.len() + 1,
                        Option::None => 1,
                    })
                    &&& forall|c2: Seq<char>|
                        c2 != collection@ ==> #[trigger] index_bucket(*final(self), c2)
                            == index_bucket(*old(self), c2)
                    &&& forall|c2: Seq<char>, id2: Seq<char>|
                        !(c2 == collection@ && id2 == doc_id@) ==> #[trigger] index_find(
                            *final(self),
                            c2,
                            id2,
                        ) == index_find(*old(self), c2, id2)
                    &&& index_collections(*final(self)) == if index_bucket(
                        *old(self),
                        collection@,
                    ) is Some {
                        index_collections(*old(self))
                    } else {
                        index_collections(*old(self)).push(collection@)
                    }
                },
                Result::Err(e) => e is DuplicateKey && *final(self) == *old(self),
            },
    {
        let ghost m0 = index_model(*self);
        let entry = IndexEntry { doc_id: doc_id.clone(), page_num, offset };
        match self.find_bucket(collection) {
            Option::Some(bi) => {
                let ghost bucket0 = index_model(*self)[bi as int].1;
                match Index::find_in_bucket(&self.buckets[bi].1, doc_id.as_str()) {
                    Option::Some(_) => {
                        return Result::Err(KeraDBError::DuplicateKey(doc_id));
                    },
                    Option::None => {},
                }
                let ghost pre_entries = self.buckets@[bi as int].1@;
                self.buckets[bi].1.push(entry);
                proof {
                    let post = index_model(*self);
                    assert(bucket_model(self.buckets@[bi as int].1@) =~= bucket_model(
                        pre_entries,
                    ).push((doc_id@, (page_num, offset))));
                    assert(post =~= m0.update(
                        bi as int,
                        (collection@, bucket_model(pre_entries).push(
                            (doc_id@, (page_num, offset)),
                        )),
                    ));
                    lemma_assoc_get_push(bucket_model(pre_entries), doc_id@, (page_num,
                    offset), doc_id@);
                    assert forall|j: int| 0 <= j < bi implies (#[trigger] m0[j]).0
                        != collection@ by {
                        assert(m0[j].0 != m0[bi as int].0);
                    }
                    lemma_assoc_get_update_same(m0, bi as int, bucket_model(
                        pre_entries,
                    ).push((doc_id@, (page_num, offset))));
                    assert forall|c2: Seq<char>, id2: Seq<char>|
                        !(c2 == collection@ && id2 == doc_id@) implies #[trigger] index_find(
                        *self,
                        c2,
                        id2,
                    ) == index_find(*old(self), c2, id2) by {
                        if c2 == collection@ {
                            lemma_assoc_get_push(bucket_model(pre_entries), doc_id@, (
                            page_num, offset), id2);
                        } else {
                            lemma_assoc_get_update(m0, bi as int, bucket_model(
                                pre_entries,
                            ).push((doc_id@, (page_num, offset))), c2);
                        }
                    }
                    assert forall|c2: Seq<char>|
                        c2 != collection@ implies #[trigger] index_bucket(*self, c2)
                        == index_bucket(*old(self), c2) by {
                        lemma_assoc_get_update(m0, bi as int, bucket_model(
                            pre_entries,
                        ).push((doc_id@, (page_num, offset))), c2);
                    }
                    assert(index_bucket(*self, collection@) == Option::Some(
                        bucket_model(pre_entries).push((doc_id@, (page_num, offset))),
                    ));
                    assert(index_bucket(*old(self), collection@) == Option::Some(
                        bucket_model(pre_entries),
                    ));
                    assert(assoc_keys(post) =~= assoc_keys(m0));
                    assert forall|i: int, j: int| 0 <= i < j < post.len() implies (
                    #[trigger] post[i]).0 != (#[trigger] post[j]).0 by {
                        assert(post[i].0 == m0[i].0);
                        assert(post[j].0 == m0[j].0);
                    }
                    assert forall|i: int| 0 <= i < post.len() implies assoc_unique(
                        (#[trigger] post[i]).1,
                    ) by {
                        if i == bi {
                            let nb = bucket_model(pre_entries).push(
                                (doc_id@, (page_num, offset)),
                            );
                            lemma_assoc_none_no_key(bucket_model(pre_entries), doc_id@);
                            assert forall|a: int, b: int|
                                0 <= a < b < nb.len() implies (#[trigger] nb[a]).0 != (
                            #[trigger] nb[b]).0 by {
                                if b < nb.len() - 1 {
                                    assert(nb[a] == bucket_model(pre_entries)[a]);
                                    assert(nb[b] == bucket_model(pre_entries)[b]);
                                } else {
                                    assert(nb[a] == bucket_model(pre_entries)[a]);
                                }
                            }
                        } else {
                            assert(post[i].1 == m0[i].1);
                        }
                    }
                }
                Result::Ok(())
            },
            Option::None => {
                let mut entries: Vec<IndexEntry> = Vec::new();
                entries.push(entry);
                let name = collection.to_owned();
                self.buckets.push((name, entries));
                proof {
                    let post = index_model(*self);
                    let nb = bucket_model(self.buckets@[self.buckets@.len() - 1].1@);
                    let ghost loc: Loc = (page_num, offset);
                    assert(nb =~= seq![(doc_id@, loc)]);
                    assert(post =~= m0.push((collection@, nb)));
                    lemma_assoc_get_push(m0, collection@, nb, collection@);
                    assert forall|c2: Seq<char>, id2: Seq<char>|
                        !(c2 == collection@ && id2 == doc_id@) implies #[trigger] index_find(
                        *self,
                        c2,
                        id2,
                    ) == index_find(*old(self), c2, id2) by {
                        lemma_assoc_get_push(m0, collection@, nb, c2);
                        if c2 == collection@ {
                            assert forall|j: int| 0 <= j < nb.len() implies (
                            #[trigger] nb[j]).0 != id2 by {
                                assert(nb[j] == (doc_id@, loc));
                            }
                            lemma_assoc_get_absent(nb, id2);
                        }
                    }
                    assert forall|c2: Seq<char>|
                        c2 != collection@ implies #[trigger] index_bucket(*self, c2)
                        == index_bucket(*old(self), c2) by {
                        lemma_assoc_get_push(m0, collection@, nb, c2);
                    }
                    assert(index_bucket(*self, collection@) == Option::Some(nb));
                    assert(nb.len() == 1);
                    assert(assoc_keys(post) =~= assoc_keys(m0).push(collection@));
                    lemma_assoc_none_no_key(m0, collection@);
                    assert forall|i: int, j: int| 0 <= i < j < post.len() implies (
                    #[trigger] post[i]).0 != (#[trigger] post[j]).0 by {
                        if j < post.len() - 1 {
                            assert(post[i] == m0[i]);
                            assert(post[j] == m0[j]);
                        } else {
                            assert(post[i] == m0[i]);
                        }
                    }
                    assert forall|i: int| 0 <= i < post.len() implies assoc_unique(
                        (#[trigger] post[i]).1,
                    ) by {
                        if i < post.len() - 1 {
                            assert(post[i] == m0[i]);
                        } else {
                            assert(post[i].1 == nb);
                        }
                    }
                }
                Result::Ok(())
            },
        }
    }

    /// The entry for `(collection, id)`, if any, as a copy.
    pub fn find(&self, collection: &str, doc_id: &str) -> (r: Option<IndexEntry>)
        requires
            self.wf(),
        ensures
            match r {
                Option::Some(e) => index_find(*self, collection@, doc_id@)
                    == Option::Some((e.page_num, e.offset)) && e.doc_id@ == doc_id@,
                Option::None => index_find(*self, collection@, doc_id@) is None,
            },
    {
        match self.find_bucket(collection) {
            Option::Some(bi) => {
                match Index::find_in_bucket(&self.buckets[bi].1, doc_id) {
                    Option::Some(ei) => {
                        let e = &self.buckets[bi].1[ei];
                        Option::Some(
                            IndexEntry {
                                doc_id: e.doc_id.clone(),
                                page_num: e.page_num,
                                offset: e.offset,
                            },
                        )
                    },
                    Option::None => Option::None,
                }
            },
            Option::None => Option::None,
        }
    }

    /// Removes the entry for `(collection, id)` and returns it, when it
    /// exists; nothing else changes.
    pub fn remove(&mut self, collection: &str, doc_id: &str) -> (r: Option<IndexEntry>)
        requires
            old(self).wf(),
        ensures
            final(self).wf(),
            index_find(*final(self), collection@, doc_id@) is None,
            forall|c2: Seq<char>, id2: Seq<char>|
                !(c2 == collection@ && id2 == doc_id@) ==> #[trigger] index_find(
                    *final(self),
                    c2,
                    id2,
                ) == index_find(*old(self), c2, id2),
            index_collections(*final(self)) == index_collections(*old(self)),
            forall|c2: Seq<char>|
                c2 != collection@ ==> #[trigger] index_bucket(*final(self), c2)
                    == index_bucket(*old(self), c2),
            match r {
                Option::Some(e) => index_find(*old(self), collection@, doc_id@)
                    == Option::Some((e.page_num, e.offset)) && e.doc_id@ == doc_id@
                    && (index_bucket(*final(self), collection@) matches Option::Some(es2)
                    && index_bucket(*old(self), collection@) matches Option::Some(es)
                    && es2.len() == es.len() - 1),
                Option::None => index_find(*old(self), collection@, doc_id@) is None
                    && *final(self) == *old(self),
            },
    {
        let ghost m0 = index_model(*self);
        match self.find_bucket(collection) {
            Option::Some(bi) => {
                let ghost bucket0 = index_model(*self)[bi as int].1;
                match Index::find_in_bucket(&self.buckets[bi].1, doc_id) {
                    Option::Some(ei) => {
                        let ghost pre_entries = self.buckets@[bi as int].1@;
                        let e = self.buckets[bi].1.remove(ei);
                        proof {
                            let post = index_model(*self);
                            let nb = bucket_model(pre_entries).remove(ei as int);
                            assert(bucket_model(self.buckets@[bi as int].1@) =~= nb);
                            assert(post =~= m0.update(bi as int, (collection@, nb)));
                            lemma_assoc_get_remove(bucket_model(pre_entries), ei as int,
                            doc_id@, doc_id@);
                            assert forall|j: int| 0 <= j < bi implies (#[trigger] m0[j]).0
                                != collection@ by {
                                assert(m0[j].0 != m0[bi as int].0);
                            }
                            lemma_assoc_get_update_same(m0, bi as int, nb);
                            assert forall|c2: Seq<char>, id2: Seq<char>|
                                !(c2 == collection@ && id2 == doc_id@) implies #[trigger]
                            index_find(*self, c2, id2) == index_find(
                                *old(self),
                                c2,
                                id2,
                            ) by {
                                if c2 == collection@ {
                                    lemma_assoc_get_remove(bucket_model(pre_entries),
                                    ei as int, doc_id@, id2);
                                } else {
                                    lemma_assoc_get_update(m0, bi as int, nb, c2);
                                }
                            }
                            assert forall|c2: Seq<char>|
                                c2 != collection@ implies #[trigger] index_bucket(
                                *self,
                                c2,
                            ) == index_bucket(*old(self), c2) by {
                                lemma_assoc_get_update(m0, bi as int, nb, c2);
                            }
                            assert(index_bucket(*self, collection@) == Option::Some(nb));
                            assert(index_bucket(*old(self), collection@) == Option::Some(
                                bucket_model(pre_entries),
                            ));
                            assert(assoc_keys(post) =~= assoc_keys(m0));
                            assert forall|i: int, j: int|
                                0 <= i < j < post.len() implies (#[trigger] post[i]).0 != (
                            #[trigger] post[j]).0 by {
                                assert(post[i].0 == m0[i].0);
                                assert(post[j].0 == m0[j].0);
                            }
                            assert forall|i: int| 0 <= i < post.len() implies assoc_unique(
                                (#[trigger] post[i]).1,
                            ) by {
                                if i == bi {
                                    let pm = bucket_model(pre_entries);
                                    assert forall|a: int, b: int|
                                        0 <= a < b < nb.len() implies (#[trigger] nb[a]).0
                                            != (#[trigger] nb[b]).0 by {
                                        let a2: int = if a < ei { a } else { a + 1 };
                                        let b2: int = if b < ei { b } else { b + 1 };
                                        assert(nb[a] == pm[a2]);
                                        assert(nb[b] == pm[b2]);
                                    }
                                } else {
                                    assert(post[i].1 == m0[i].1);
                                }
                            }
                        }
                        Option::Some(e)
                    },
                    Option::None => Option::None,
                }
            },
            Option::None => Option::None,
        }
    }

    /// The ids of a collection's documents, in insertion order (empty
    /// when the collection is unknown).
    pub fn list_ids(&self, collection: &str) -> (r: Vec<String>)
        requires
            self.wf(),
        ensures
            match index_bucket(*self, collection@) {
                Option::Some(es) => r@.len() == es.len() && forall|i: int|
                    0 <= i < es.len() ==> (#[trigger] r@[i])@ == es[i].0,
                Option::None => r@.len() == 0,
            },
    {
        match self.find_bucket(collection) {
            Option::Some(bi) => {
                let entries = &self.buckets[bi].1;
                let mut out: Vec<String> = Vec::new();
                let mut k: usize = 0;
                while k < entries.len()
                    invariant
                        k <= entries@.len(),
                        out@.len() == k,
                        forall|i: int|
                            0 <= i < k ==> (#[trigger] out@[i])@ == bucket_model(
                                entries@,
                            )[i].0,
                    decreases entries@.len() - k,
                {
                    out.push(entries[k].doc_id.clone());
                    k = k + 1;
                }
                out
            },
            Option::None => Vec::new(),
        }
    }

    /// How many documents a collection holds (zero when unknown).
    pub fn count(&self, collection: &str) -> (r: usize)
        requires
            self.wf(),
        ensures
            r == match index_bucket(*self, collection@) {
                Option::Some(es) => es.len(),
                Option::None => 0,
            },
    {
        match self.find_bucket(collection) {
            Option::Some(bi) => self.buckets[bi].1.len(),
            Option::None => 0,
        }
    }

    /// Every known collection name, in order of first insertion.
    pub fn list_collections(&self) -> (r: Vec<String>)
        requires
            self.wf(),
        ensures
            r@.len() == index_collections(*self).len(),
            forall|i: int|
                0 <= i < r@.len() ==> (#[trigger] r@[i])@ == index_collections(*self)[i],
    {
        let mut out: Vec<String> = Vec::new();
        let mut k: usize = 0;
        while k < self.buckets.len()
            invariant
                k <= self.buckets@.len(),
                out@.len() == k,
                forall|i: int|
                    0 <= i < k ==> (#[trigger] out@[i])@ == index_model(*self)[i].0,
            decreases self.buckets@.len() - k,
        {
            out.push(self.buckets[k].0.clone());
            k = k + 1;
        }
        out
    }
}

} // verus!

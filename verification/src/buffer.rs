//! The buffer pool: a capacity-bounded cache of recently used pages.
//!
//! The pool is a pure accelerator — it holds no authoritative state.
//! When the pool is full, inserting evicts one resident entry.  The
//! contracts promise that a lookup only ever returns a page that was
//! put into the pool and not since removed or overwritten.

use vstd::prelude::*;
use crate::page::{Page, PageM, page_model};

verus! {

/// A bounded page cache keyed by page number.
pub struct BufferPool {
    entries: Vec<(u32, Page)>,
    max_size: usize,
}

/// The cached page model for `n`, if any, searching from the front.
pub open spec fn cache_lookup(entries: Seq<(u32, PageM)>, n: u32) -> Option<PageM>
    decreases entries.len(),
{
    if entries.len() == 0 {
        Option::None
    } else if entries[0].0 == n {
        Option::Some(entries[0].1)
    } else {
        cache_lookup(entries.drop_first(), n)
    }
}

/// The models of the cache entries, in order.
pub closed spec fn pool_entries(p: BufferPool) -> Seq<(u32, PageM)> {
    Seq::new(p.entries@.len(), |i: int| (p.entries@[i].0, page_model(p.entries@[i].1)))
}

/// What the pool holds for page `n`.
pub open spec fn pool_lookup(p: BufferPool, n: u32) -> Option<PageM> {
    cache_lookup(pool_entries(p), n)
}

/// The capacity the pool was made with.
pub closed spec fn pool_max(p: BufferPool) -> int {
    p.max_size as int
}

proof fn lemma_cache_lookup_found(entries: Seq<(u32, PageM)>, n: u32, i: int)
    requires
        0 <= i < entries.len(),
        entries[i].0 == n,
        forall|j: int| 0 <= j < i ==> (#[trigger] entries[j]).0 != n,
    ensures
        cache_lookup(entries, n) == Option::Some(entries[i].1),
    decreases i,
{
    if i > 0 {
        lemma_cache_lookup_found(entries.drop_first(), n, i - 1);
    }
}

proof fn lemma_cache_lookup_absent(entries: Seq<(u32, PageM)>, n: u32)
    requires
        forall|j: int| 0 <= j < entries.len() ==> (#[trigger] entries[j]).0 != n,
    ensures
        cache_lookup(entries, n) is None,
    decreases entries.len(),
{
    if entries.len() > 0 {
        lemma_cache_lookup_absent(entries.drop_first(), n);
    }
}

impl BufferPool {
    /// Entry-key uniqueness, so that lookups are unambiguous, and the
    /// capacity bound: never more residents than the pool was made for
    /// (one when the capacity is zero).
    pub closed spec fn wf(self) -> bool {
        &&& forall|i: int, j: int|
            0 <= i < j < self.entries@.len() ==> (#[trigger] self.entries@[i]).0 != (
            #[trigger] self.entries@[j]).0
        &&& self.entries@.len() <= (if self.max_size >= 1 {
            self.max_size as int
        } else {
            1
        })
    }

    /// The capacity bound well-formedness carries.
    pub proof fn lemma_wf_capacity(self)
        requires
            self.wf(),
        ensures
            pool_entries(self).len() <= (if pool_max(self) >= 1 {
                pool_max(self)
            } else {
                1
            }),
    {
    }

    /// An empty pool that will hold at most `max_size` pages.
    pub fn new(max_size: usize) -> (r: BufferPool)
        ensures
            r.wf(),
            pool_entries(r).len() == 0,
            pool_max(r) == max_size,
    {
        let r = BufferPool { entries: Vec::new(), max_size };
        proof {
            assert(pool_entries(r) =~= Seq::<(u32, PageM)>::empty());
        }
        r
    }

    /// The index of the entry for `n`, if resident.
    fn find_index(&self, n: u32) -> (r: Option<usize>)
        requires
            self.wf(),
        ensures
            match r {
                Option::Some(i) => i < pool_entries(*self).len() && pool_entries(*self)[
                    i as int].0 == n && pool_lookup(*self, n) == Option::Some(
                    pool_entries(*self)[i as int].1,
                ),
                Option::None => pool_lookup(*self, n) is None,
            },
    {
        let ghost m = pool_entries(*self);
        let mut k: usize = 0;
        while k < self.entries.len()
            invariant
                self.wf(),
                m == pool_entries(*self),
                k <= self.entries@.len(),
                forall|j: int| 0 <= j < k ==> (#[trigger] m[j]).0 != n,
            decreases self.entries@.len() - k,
        {
            if self.entries[k].0 == n {
                proof {
                    lemma_cache_lookup_found(m, n, k as int);
                }
                return Option::Some(k);
            }
            k = k + 1;
        }
        proof {
            lemma_cache_lookup_absent(m, n);
        }
        Option::None
    }

    /// The cached page for `n`, as a copy, when resident.
    pub fn get(&self, page_num: u32) -> (r: Option<Page>)
        requires
            self.wf(),
        ensures
            match r {
                Option::Some(p) => pool_lookup(*self, page_num) == Option::Some(
                    page_model(p),
                ),
                Option::None => pool_lookup(*self, page_num) is None,
            },
    {
        match self.find_index(page_num) {
            Option::Some(i) => Option::Some(self.entries[i].1.clone_page()),
            Option::None => Option::None,
        }
    }

    /// Caches a page, evicting the oldest resident entry when full.
    /// Every page resident afterwards is either the one just put or was
    /// already resident before.
    pub fn put(&mut self, page: Page)
        requires
            old(self).wf(),
        ensures
            final(self).wf(),
            pool_max(*final(self)) == pool_max(*old(self)),
            pool_lookup(*final(self), page.page_num) == Option::Some(page_model(page)),
            forall|k: u32|
                #[trigger] pool_lookup(*final(self), k) is Some ==> k == page.page_num
                    || pool_lookup(*final(self), k) == pool_lookup(*old(self), k),
            // The pool stays within its capacity (one entry when the
            // capacity is zero).
            pool_entries(*old(self)).len() <= (if pool_max(*old(self)) >= 1 {
                pool_max(*old(self))
            } else {
                1
            }) ==> pool_entries(*final(self)).len() <= (if pool_max(*old(self)) >= 1 {
                pool_max(*old(self))
            } else {
                1
            }),
    {
        let n = page.page_num;
        match self.find_index(n) {
            Option::Some(i) => {
                let ghost pre = pool_entries(*self);
                self.entries.set(i, (n, page));
                proof {
                    let post = pool_entries(*self);
                    assert(post =~= pre.update(i as int, (n, page_model(page))));
                    lemma_cache_lookup_found(post, n, i as int);
                    assert forall|k: u32| #[trigger] cache_lookup(post, k) is Some
                        implies k == n || cache_lookup(post, k) == cache_lookup(
                        pre,
                        k,
                    ) by {
                        if k != n {
                            lemma_lookup_update_other(pre, post, k);
                        }
                    }
                    assert forall|a: int, b: int|
                        0 <= a < b < self.entries@.len() implies (
                    #[trigger] self.entries@[a]).0 != (#[trigger] self.entries@[b]).0 by {
                        assert(self.entries@[a].0 == pre[a].0);
                        assert(self.entries@[b].0 == pre[b].0);
                        assert(pre[a].0 == old(self).entries@[a].0);
                        assert(pre[b].0 == old(self).entries@[b].0);
                    }
                }
            },
            Option::None => {
                let ghost whole = pool_entries(*self);
                proof {
                    lemma_lookup_none_no_key(whole, n);
                }
                if self.entries.len() >= self.max_size && self.entries.len() > 0 {
                    self.entries.remove(0);
                    proof {
                        assert(pool_entries(*self) =~= whole.drop_first());
                    }
                }
                let ghost pre = pool_entries(*self);
                proof {
                    assert(pre == whole || (whole.len() > 0 && pre == whole.drop_first()));
                    assert forall|j: int| 0 <= j < pre.len() implies (#[trigger] pre[j]).0
                        != n by {
                        if pre != whole {
                            assert(pre[j] == whole[j + 1]);
                        }
                    }
                }
                self.entries.push((n, page));
                proof {
                    let post = pool_entries(*self);
                    assert(post =~= pre.push((n, page_model(page))));
                    lemma_lookup_after_push(pre, n, page_model(page));
                    assert forall|k: u32| #[trigger] cache_lookup(post, k) is Some
                        implies k == n || cache_lookup(post, k) == cache_lookup(
                        whole,
                        k,
                    ) by {
                        if k != n {
                            lemma_lookup_push_other(pre, n, page_model(page), k);
                            lemma_lookup_sub(whole, pre, k);
                        }
                    }
                    assert forall|a: int, b: int|
                        0 <= a < b < self.entries@.len() implies (
                    #[trigger] self.entries@[a]).0 != (#[trigger] self.entries@[b]).0 by {
                        assert(self.entries@[a].0 == post[a].0);
                        assert(self.entries@[b].0 == post[b].0);
                        if b < post.len() - 1 {
                            assert(post[a] == pre[a]);
                            assert(post[b] == pre[b]);
                            if pre == whole {
                                assert(pre[a].0 != pre[b].0);
                            } else {
                                assert(pre[a] == whole[a + 1]);
                                assert(pre[b] == whole[b + 1]);
                            }
                        } else {
                            assert(post[b].0 == n);
                            assert(post[a] == pre[a]);
                        }
                    }
                }
            },
        }
    }

    /// Drops the cached page for `n`, if resident.
    pub fn remove(&mut self, page_num: u32)
        requires
            old(self).wf(),
        ensures
            final(self).wf(),
            pool_lookup(*final(self), page_num) is None,
            forall|k: u32|
                k != page_num ==> #[trigger] pool_lookup(*final(self), k) == pool_lookup(
                    *old(self),
                    k,
                ),
    {
        match self.find_index(page_num) {
            Option::Some(i) => {
                let ghost pre = pool_entries(*self);
                self.entries.remove(i);
                proof {
                    let post = pool_entries(*self);
                    assert(post =~= pre.remove(i as int));
                    lemma_lookup_remove(pre, i as int, page_num);
                }
            },
            Option::None => {},
        }
    }

    /// Empties the pool.
    pub fn clear(&mut self)
        ensures
            final(self).wf(),
            forall|k: u32| pool_lookup(*final(self), k) is None,
    {
        self.entries.clear();
        proof {
            assert(pool_entries(*self) =~= Seq::<(u32, PageM)>::empty());
            assert forall|k: u32| pool_lookup(*self, k) is None by {
                lemma_cache_lookup_absent(pool_entries(*self), k);
            }
        }
    }

    /// The number of resident pages.
    pub fn size(&self) -> (r: usize)
        ensures
            r == pool_entries(*self).len(),
    {
        self.entries.len()
    }
}

proof fn lemma_lookup_update_other(pre: Seq<(u32, PageM)>, post: Seq<(u32, PageM)>, k: u32)
    requires
        pre.len() == post.len(),
        forall|j: int|
            0 <= j < pre.len() && (#[trigger] pre[j]).0 == k ==> post[j] == pre[j],
        forall|j: int|
            0 <= j < pre.len() && (#[trigger] post[j]).0 == k ==> post[j] == pre[j],
    ensures
        cache_lookup(post, k) == cache_lookup(pre, k),
    decreases pre.len(),
{
    if pre.len() > 0 {
        assert(pre[0] == pre.drop_first()[0 - 1 + 1] || true);
        if pre[0].0 == k || post[0].0 == k {
            assert(post[0] == pre[0]);
        } else {
            assert forall|j: int|
                0 <= j < pre.drop_first().len() && (#[trigger] pre.drop_first()[j]).0
                    == k implies post.drop_first()[j] == pre.drop_first()[j] by {
                assert(pre.drop_first()[j] == pre[j + 1]);
                assert(post.drop_first()[j] == post[j + 1]);
            }
            assert forall|j: int|
                0 <= j < pre.drop_first().len() && (#[trigger] post.drop_first()[j]).0
                    == k implies post.drop_first()[j] == pre.drop_first()[j] by {
                assert(pre.drop_first()[j] == pre[j + 1]);
                assert(post.drop_first()[j] == post[j + 1]);
            }
            lemma_lookup_update_other(pre.drop_first(), post.drop_first(), k);
        }
    }
}

proof fn lemma_lookup_after_push(pre: Seq<(u32, PageM)>, n: u32, pm: PageM)
    requires
        forall|j: int| 0 <= j < pre.len() ==> (#[trigger] pre[j]).0 != n,
    ensures
        cache_lookup(pre.push((n, pm)), n) == Option::Some(pm),
    decreases pre.len(),
{
    let post = pre.push((n, pm));
    if pre.len() == 0 {
        assert(post[0] == (n, pm));
    } else {
        assert(post[0] == pre[0]);
        assert(post.drop_first() =~= pre.drop_first().push((n, pm)));
        lemma_lookup_after_push(pre.drop_first(), n, pm);
    }
}

proof fn lemma_lookup_push_other(pre: Seq<(u32, PageM)>, n: u32, pm: PageM, k: u32)
    requires
        k != n,
    ensures
        cache_lookup(pre.push((n, pm)), k) == cache_lookup(pre, k),
    decreases pre.len(),
{
    let post = pre.push((n, pm));
    if pre.len() == 0 {
        assert(post[0] == (n, pm));
    } else {
        assert(post[0] == pre[0]);
        if pre[0].0 != k {
            assert(post.drop_first() =~= pre.drop_first().push((n, pm)));
            lemma_lookup_push_other(pre.drop_first(), n, pm, k);
        }
    }
}

proof fn lemma_lookup_remove_other(pre: Seq<(u32, PageM)>, i: int, k: u32)
    requires
        0 <= i < pre.len(),
        pre[i].0 != k,
    ensures
        cache_lookup(pre.remove(i), k) == cache_lookup(pre, k),
    decreases i,
{
    let post = pre.remove(i);
    if i == 0 {
        assert(post =~= pre.drop_first());
    } else {
        assert(post[0] == pre[0]);
        if pre[0].0 != k {
            assert(post.drop_first() =~= pre.drop_first().remove(i - 1));
            lemma_lookup_remove_other(pre.drop_first(), i - 1, k);
        }
    }
}

proof fn lemma_lookup_remove(pre: Seq<(u32, PageM)>, i: int, n: u32)
    requires
        0 <= i < pre.len(),
        pre[i].0 == n,
        forall|a: int, b: int|
            0 <= a < b < pre.len() ==> (#[trigger] pre[a]).0 != (#[trigger] pre[b]).0,
    ensures
        cache_lookup(pre.remove(i), n) is None,
        forall|k: u32| k != n ==> cache_lookup(pre.remove(i), k) == cache_lookup(pre, k),
{
    let post = pre.remove(i);
    assert forall|j: int| 0 <= j < post.len() implies (#[trigger] post[j]).0 != n by {
        if j < i {
            assert(post[j] == pre[j]);
        } else {
            assert(post[j] == pre[j + 1]);
        }
    }
    lemma_cache_lookup_absent(post, n);
    assert forall|k: u32| k != n implies cache_lookup(post, k) == cache_lookup(pre, k) by {
        lemma_lookup_remove_other(pre, i, k);
    }
}

/// A lookup that succeeds after dropping the front entry agrees with
/// the original lookup, under key uniqueness.
proof fn lemma_lookup_sub(whole: Seq<(u32, PageM)>, sub: Seq<(u32, PageM)>, k: u32)
    requires
        sub == whole || (whole.len() > 0 && sub == whole.drop_first()),
        forall|i: int, j: int|
            0 <= i < j < whole.len() ==> (#[trigger] whole[i]).0 != (#[trigger] whole[j]).0,
        cache_lookup(sub, k) is Some,
    ensures
        cache_lookup(whole, k) == cache_lookup(sub, k),
{
    if sub != whole {
        lemma_lookup_some_index(sub, k);
        let i = choose|i: int|
            0 <= i < sub.len() && (#[trigger] sub[i]).0 == k && cache_lookup(sub, k)
                == Option::Some(sub[i].1);
        assert(sub[i] == whole[i + 1]);
        assert(whole[0].0 != k);
    }
}

/// A missing key has no entry.
proof fn lemma_lookup_none_no_key(entries: Seq<(u32, PageM)>, k: u32)
    requires
        cache_lookup(entries, k) is None,
    ensures
        forall|j: int| 0 <= j < entries.len() ==> (#[trigger] entries[j]).0 != k,
    decreases entries.len(),
{
    if entries.len() > 0 {
        lemma_lookup_none_no_key(entries.drop_first(), k);
        assert forall|j: int| 0 <= j < entries.len() implies (#[trigger] entries[j]).0
            != k by {
            if j > 0 {
                assert(entries[j] == entries.drop_first()[j - 1]);
            }
        }
    }
}

/// When a lookup succeeds there is a matching entry at some index.
proof fn lemma_lookup_some_index(entries: Seq<(u32, PageM)>, k: u32)
    requires
        cache_lookup(entries, k) is Some,
    ensures
        exists|i: int|
            0 <= i < entries.len() && (#[trigger] entries[i]).0 == k && cache_lookup(
                entries,
                k,
            ) == Option::Some(entries[i].1),
    decreases entries.len(),
{
    if entries.len() > 0 {
        if entries[0].0 == k {
            assert(entries[0].0 == k && cache_lookup(entries, k) == Option::Some(
                entries[0].1,
            ));
        } else {
            lemma_lookup_some_index(entries.drop_first(), k);
            let i = choose|i: int|
                0 <= i < entries.drop_first().len() && (#[trigger] entries.drop_first()[
                    i]).0 == k && cache_lookup(entries.drop_first(), k) == Option::Some(
                    entries.drop_first()[i].1,
                );
            assert(entries[i + 1].0 == k && cache_lookup(entries, k) == Option::Some(
                entries[i + 1].1,
            ));
        }
    }
}

} // verus!

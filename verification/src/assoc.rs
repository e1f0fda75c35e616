//! Association sequences: the mathematical model shared by the keyed
//! tables of this crate (the primary index, metadata maps, collections).
//!
//! A table is modelled as a sequence of key/value pairs with distinct
//! keys; `assoc_get` is the lookup all contracts speak of.

use vstd::prelude::*;

verus! {

/// The first value stored under `k`, if any.
pub open spec fn assoc_get<K, V>(s: Seq<(K, V)>, k: K) -> Option<V>
    decreases s.len(),
{
    if s.len() == 0 {
        Option::None
    } else if s[0].0 == k {
        Option::Some(s[0].1)
    } else {
        assoc_get(s.drop_first(), k)
    }
}

/// Distinct keys.
pub open spec fn assoc_unique<K, V>(s: Seq<(K, V)>) -> bool {
    forall|i: int, j: int|
        0 <= i < j < s.len() ==> (#[trigger] s[i]).0 != (#[trigger] s[j]).0
}

/// The keys, in order.
pub open spec fn assoc_keys<K, V>(s: Seq<(K, V)>) -> Seq<K> {
    s.map_values(|p: (K, V)| p.0)
}

pub proof fn lemma_assoc_get_found<K, V>(s: Seq<(K, V)>, k: K, i: int)
    requires
        0 <= i < s.len(),
        s[i].0 == k,
        forall|j: int| 0 <= j < i ==> (#[trigger] s[j]).0 != k,
    ensures
        assoc_get(s, k) == Option::Some(s[i].1),
    decreases i,
{
    if i > 0 {
        assert(s.drop_first()[i - 1] == s[i]);
        assert forall|j: int| 0 <= j < i - 1 implies (#[trigger] s.drop_first()[j]).0
            != k by {
            assert(s.drop_first()[j] == s[j + 1]);
        }
        lemma_assoc_get_found(s.drop_first(), k, i - 1);
    }
}

pub proof fn lemma_assoc_get_absent<K, V>(s: Seq<(K, V)>, k: K)
    requires
        forall|j: int| 0 <= j < s.len() ==> (#[trigger] s[j]).0 != k,
    ensures
        assoc_get(s, k) is None,
    decreases s.len(),
{
    if s.len() > 0 {
        assert forall|j: int| 0 <= j < s.len() - 1 implies (#[trigger] s.drop_first()[
        j]).0 != k by {
            assert(s.drop_first()[j] == s[j + 1]);
        }
        lemma_assoc_get_absent(s.drop_first(), k);
    }
}

pub proof fn lemma_assoc_none_no_key<K, V>(s: Seq<(K, V)>, k: K)
    requires
        assoc_get(s, k) is None,
    ensures
        forall|j: int| 0 <= j < s.len() ==> (#[trigger] s[j]).0 != k,
    decreases s.len(),
{
    if s.len() > 0 {
        lemma_assoc_none_no_key(s.drop_first(), k);
        assert forall|j: int| 0 <= j < s.len() implies (#[trigger] s[j]).0 != k by {
            if j > 0 {
                assert(s[j] == s.drop_first()[j - 1]);
            }
        }
    }
}

/// Updating index `i` (whose key is `k`) changes only `k`'s binding.
pub proof fn lemma_assoc_get_update<K, V>(s: Seq<(K, V)>, i: int, v: V, k2: K)
    requires
        0 <= i < s.len(),
        s[i].0 != k2,
    ensures
        assoc_get(s.update(i, (s[i].0, v)), k2) == assoc_get(s, k2),
    decreases i,
{
    let post = s.update(i, (s[i].0, v));
    if i == 0 {
        assert(post.drop_first() =~= s.drop_first());
    } else {
        assert(post[0] == s[0]);
        if s[0].0 != k2 {
            assert(post.drop_first() =~= s.drop_first().update(i - 1, (s[i].0, v)));
            assert(s.drop_first()[i - 1] == s[i]);
            lemma_assoc_get_update(s.drop_first(), i - 1, v, k2);
        }
    }
}

/// The binding of the key at an updated index.
pub proof fn lemma_assoc_get_update_same<K, V>(s: Seq<(K, V)>, i: int, v: V)
    requires
        0 <= i < s.len(),
        forall|j: int| 0 <= j < i ==> (#[trigger] s[j]).0 != s[i].0,
    ensures
        assoc_get(s.update(i, (s[i].0, v)), s[i].0) == Option::Some(v),
{
    let post = s.update(i, (s[i].0, v));
    assert forall|j: int| 0 <= j < i implies (#[trigger] post[j]).0 != s[i].0 by {
        assert(post[j] == s[j]);
    }
    lemma_assoc_get_found(post, s[i].0, i);
}

pub proof fn lemma_assoc_get_push<K, V>(s: Seq<(K, V)>, k: K, v: V, k2: K)
    ensures
        k2 == k && assoc_get(s, k) is None ==> assoc_get(s.push((k, v)), k2)
            == Option::Some(v),
        k2 != k ==> assoc_get(s.push((k, v)), k2) == assoc_get(s, k2),
    decreases s.len(),
{
    let post = s.push((k, v));
    if s.len() == 0 {
        assert(post[0] == (k, v));
        if k2 != k {
            assert(post[0].0 == k);
            assert(post.drop_first() =~= Seq::<(K, V)>::empty());
            assert(assoc_get(post.drop_first(), k2) is None);
            assert(assoc_get(post, k2) is None);
            assert(assoc_get(s, k2) is None);
        }
    } else {
        assert(post[0] == s[0]);
        assert(post.drop_first() =~= s.drop_first().push((k, v)));
        lemma_assoc_get_push(s.drop_first(), k, v, k2);
        if k2 != k {
            if s[0].0 == k2 {
                assert(assoc_get(post, k2) == Option::Some(post[0].1));
                assert(assoc_get(s, k2) == Option::Some(s[0].1));
            } else {
                assert(assoc_get(post, k2) == assoc_get(post.drop_first(), k2));
                assert(assoc_get(s, k2) == assoc_get(s.drop_first(), k2));
            }
        }
    }
}

/// Removing index `i` (whose key is `k`, keys unique) removes exactly
/// `k`'s binding.
pub proof fn lemma_assoc_get_remove<K, V>(s: Seq<(K, V)>, i: int, k: K, k2: K)
    requires
        0 <= i < s.len(),
        s[i].0 == k,
        assoc_unique(s),
    ensures
        assoc_get(s.remove(i), k) is None,
        k2 != k ==> assoc_get(s.remove(i), k2) == assoc_get(s, k2),
{
    let post = s.remove(i);
    assert forall|j: int| 0 <= j < post.len() implies (#[trigger] post[j]).0 != k by {
        if j < i {
            assert(post[j] == s[j]);
        } else {
            assert(post[j] == s[j + 1]);
        }
    }
    lemma_assoc_get_absent(post, k);
    if k2 != k {
        lemma_assoc_get_remove_other(s, i, k2);
    }
}

proof fn lemma_assoc_get_remove_other<K, V>(s: Seq<(K, V)>, i: int, k2: K)
    requires
        0 <= i < s.len(),
        s[i].0 != k2,
    ensures
        assoc_get(s.remove(i), k2) == assoc_get(s, k2),
    decreases i,
{
    let post = s.remove(i);
    if i == 0 {
        assert(post =~= s.drop_first());
    } else {
        assert(post[0] == s[0]);
        if s[0].0 != k2 {
            assert(post.drop_first() =~= s.drop_first().remove(i - 1));
            assert(s.drop_first()[i - 1] == s[i]);
            lemma_assoc_get_remove_other(s.drop_first(), i - 1, k2);
        }
    }
}

/// An existing entry's key is found.
pub proof fn lemma_assoc_key_some<K, V>(s: Seq<(K, V)>, i: int)
    requires
        0 <= i < s.len(),
    ensures
        assoc_get(s, s[i].0) is Some,
    decreases i,
{
    if s[0].0 == s[i].0 {
    } else {
        assert(s.drop_first()[i - 1] == s[i]);
        lemma_assoc_key_some(s.drop_first(), i - 1);
    }
}

/// A successful lookup names an entry.
pub proof fn lemma_assoc_some_index<K, V>(s: Seq<(K, V)>, k: K)
    requires
        assoc_get(s, k) is Some,
    ensures
        exists|i: int|
            0 <= i < s.len() && (#[trigger] s[i]).0 == k && assoc_get(s, k)
                == Option::Some(s[i].1),
    decreases s.len(),
{
    if s.len() > 0 {
        if s[0].0 == k {
            assert(s[0].0 == k && assoc_get(s, k) == Option::Some(s[0].1));
        } else {
            lemma_assoc_some_index(s.drop_first(), k);
            let i = choose|i: int|
                0 <= i < s.drop_first().len() && (#[trigger] s.drop_first()[i]).0 == k
                    && assoc_get(s.drop_first(), k) == Option::Some(s.drop_first()[i].1);
            assert(s[i + 1] == s.drop_first()[i]);
            assert(s[i + 1].0 == k && assoc_get(s, k) == Option::Some(s[i + 1].1));
        }
    }
}

} // verus!

//! The document value type.
//!
//! A document body is a tree of [`Val`] nodes: null, booleans, 64-bit
//! integers, strings, arrays and objects (ordered lists of key/value
//! pairs).  Contracts about documents speak of the mathematical model
//! [`ValModel`], the same tree over sequences and unbounded integers.

use vstd::prelude::*;

verus! {

/// A JSON-like document value.
#[derive(Debug)]
pub enum Val {
    Null,
    Bool(bool),
    Int(i64),
    Str(String),
    Arr(Vec<Val>),
    Obj(Vec<(String, Val)>),
}

/// The mathematical shape of a [`Val`].
pub enum ValModel {
    Null,
    Bool(bool),
    Int(int),
    Str(Seq<char>),
    Arr(Seq<ValModel>),
    Obj(Seq<(Seq<char>, ValModel)>),
}

/// The model of a value.
pub open spec fn val_model(v: Val) -> ValModel
    decreases v,
{
    match v {
        Val::Null => ValModel::Null,
        Val::Bool(b) => ValModel::Bool(b),
        Val::Int(i) => ValModel::Int(i as int),
        Val::Str(s) => ValModel::Str(s@),
        Val::Arr(items) => ValModel::Arr(val_models(items@)),
        Val::Obj(fields) => ValModel::Obj(field_models(fields@)),
    }
}

/// The models of a sequence of values.
pub open spec fn val_models(s: Seq<Val>) -> Seq<ValModel>
    decreases s,
{
    if s.len() == 0 {
        Seq::empty()
    } else {
        seq![val_model(s[0])] + val_models(s.drop_first())
    }
}

/// The models of a sequence of key/value pairs.
pub open spec fn field_models(s: Seq<(String, Val)>) -> Seq<(Seq<char>, ValModel)>
    decreases s,
{
    if s.len() == 0 {
        Seq::empty()
    } else {
        seq![(s[0].0@, val_model(s[0].1))] + field_models(s.drop_first())
    }
}

impl View for Val {
    type V = ValModel;

    open spec fn view(&self) -> ValModel {
        val_model(*self)
    }
}

pub proof fn lemma_val_models_index(s: Seq<Val>, i: int)
    requires
        0 <= i < s.len(),
    ensures
        val_models(s).len() == s.len(),
        val_models(s)[i] == val_model(s[i]),
    decreases s.len(),
{
    lemma_val_models_len(s);
    if i > 0 {
        lemma_val_models_index(s.drop_first(), i - 1);
    }
}

pub proof fn lemma_val_models_len(s: Seq<Val>)
    ensures
        val_models(s).len() == s.len(),
    decreases s.len(),
{
    if s.len() > 0 {
        lemma_val_models_len(s.drop_first());
    }
}

pub proof fn lemma_field_models_index(s: Seq<(String, Val)>, i: int)
    requires
        0 <= i < s.len(),
    ensures
        field_models(s).len() == s.len(),
        field_models(s)[i] == (s[i].0@, val_model(s[i].1)),
    decreases s.len(),
{
    lemma_field_models_len(s);
    if i > 0 {
        lemma_field_models_index(s.drop_first(), i - 1);
    }
}

pub proof fn lemma_field_models_len(s: Seq<(String, Val)>)
    ensures
        field_models(s).len() == s.len(),
    decreases s.len(),
{
    if s.len() > 0 {
        lemma_field_models_len(s.drop_first());
    }
}

/// Whether a model is well formed: every integer fits an `i64` and every
/// object's keys are distinct.
pub open spec fn model_wf(m: ValModel) -> bool
    decreases m,
{
    match m {
        ValModel::Null => true,
        ValModel::Bool(_) => true,
        ValModel::Int(i) => i64::MIN <= i <= i64::MAX,
        ValModel::Str(_) => true,
        ValModel::Arr(items) => forall|i: int|
            0 <= i < items.len() ==> model_wf(#[trigger] items[i]),
        ValModel::Obj(fields) => {
            &&& forall|i: int| 0 <= i < fields.len() ==> model_wf((#[trigger] fields[i]).1)
            &&& forall|i: int, j: int|
                0 <= i < j < fields.len() ==> (#[trigger] fields[i]).0 != (
                #[trigger] fields[j]).0
        },
    }
}

/// What well-formedness of an object model says of its parts.
pub proof fn lemma_obj_wf_parts(m: ValModel, fields: Seq<(Seq<char>, ValModel)>)
    requires
        m == ValModel::Obj(fields),
        model_wf(m),
    ensures
        forall|i: int| 0 <= i < fields.len() ==> model_wf((#[trigger] fields[i]).1),
        forall|i: int, j: int|
            0 <= i < j < fields.len() ==> (#[trigger] fields[i]).0 != (
            #[trigger] fields[j]).0,
{
    match m {
        ValModel::Obj(f2) => {
            assert(f2 == fields);
        },
        _ => {},
    }
}

/// The converse direction: well-formed parts make a well-formed object.
pub proof fn lemma_obj_wf_whole(m: ValModel, fields: Seq<(Seq<char>, ValModel)>)
    requires
        m == ValModel::Obj(fields),
        forall|i: int| 0 <= i < fields.len() ==> model_wf((#[trigger] fields[i]).1),
        forall|i: int, j: int|
            0 <= i < j < fields.len() ==> (#[trigger] fields[i]).0 != (
            #[trigger] fields[j]).0,
    ensures
        model_wf(m),
{
    match m {
        ValModel::Obj(f2) => {
            assert(f2 == fields);
        },
        _ => {},
    }
}

/// The value at `key` in an object model, searching from the front.
pub open spec fn obj_get(fields: Seq<(Seq<char>, ValModel)>, key: Seq<char>) -> Option<
    ValModel,
>
    decreases fields.len(),
{
    if fields.len() == 0 {
        Option::None
    } else if fields[0].0 == key {
        Option::Some(fields[0].1)
    } else {
        obj_get(fields.drop_first(), key)
    }
}

/// The value at `key` when the model is an object containing it.
pub open spec fn val_get(m: ValModel, key: Seq<char>) -> Option<ValModel> {
    match m {
        ValModel::Obj(fields) => obj_get(fields, key),
        _ => Option::None,
    }
}

/// An object model with `key` set to `value`: replaced in place if the key
/// exists, appended otherwise.
pub open spec fn obj_set(
    fields: Seq<(Seq<char>, ValModel)>,
    key: Seq<char>,
    value: ValModel,
) -> Seq<(Seq<char>, ValModel)>
    decreases fields.len(),
{
    if fields.len() == 0 {
        seq![(key, value)]
    } else if fields[0].0 == key {
        seq![(key, value)] + fields.drop_first()
    } else {
        seq![fields[0]] + obj_set(fields.drop_first(), key, value)
    }
}

/// An object model with `key` removed, if present.
pub open spec fn obj_remove(fields: Seq<(Seq<char>, ValModel)>, key: Seq<char>) -> Seq<
    (Seq<char>, ValModel),
>
    decreases fields.len(),
{
    if fields.len() == 0 {
        fields
    } else if fields[0].0 == key {
        fields.drop_first()
    } else {
        seq![fields[0]] + obj_remove(fields.drop_first(), key)
    }
}

/// What `obj_get` returns after `obj_set`.
pub proof fn lemma_obj_get_set(
    fields: Seq<(Seq<char>, ValModel)>,
    key: Seq<char>,
    value: ValModel,
    k2: Seq<char>,
)
    ensures
        k2 == key ==> obj_get(obj_set(fields, key, value), k2) == Option::Some(value),
        k2 != key ==> obj_get(obj_set(fields, key, value), k2) == obj_get(fields, k2),
    decreases fields.len(),
{
    let post = obj_set(fields, key, value);
    if fields.len() == 0 {
        assert(post =~= seq![(key, value)]);
        if k2 != key {
            assert(post.drop_first() =~= Seq::<(Seq<char>, ValModel)>::empty());
        }
    } else if fields[0].0 == key {
        assert(post =~= seq![(key, value)] + fields.drop_first());
        assert(post[0] == (key, value));
        if k2 != key {
            assert(post.drop_first() =~= fields.drop_first());
        }
    } else {
        assert(post =~= seq![fields[0]] + obj_set(fields.drop_first(), key, value));
        assert(post[0] == fields[0]);
        assert(post.drop_first() =~= obj_set(fields.drop_first(), key, value));
        lemma_obj_get_set(fields.drop_first(), key, value, k2);
    }
}

/// What `obj_get` returns after `obj_remove`.
pub proof fn lemma_obj_get_remove(
    fields: Seq<(Seq<char>, ValModel)>,
    key: Seq<char>,
    k2: Seq<char>,
)
    requires
        forall|i: int, j: int|
            0 <= i < j < fields.len() ==> (#[trigger] fields[i]).0 != (
            #[trigger] fields[j]).0,
    ensures
        k2 == key ==> obj_get(obj_remove(fields, key), k2) is None,
        k2 != key ==> obj_get(obj_remove(fields, key), k2) == obj_get(fields, k2),
    decreases fields.len(),
{
    let post = obj_remove(fields, key);
    if fields.len() == 0 {
    } else if fields[0].0 == key {
        assert(post =~= fields.drop_first());
        if k2 == key {
            assert forall|j: int| 0 <= j < post.len() implies (#[trigger] post[j]).0
                != key by {
                assert(post[j] == fields[j + 1]);
            }
            lemma_obj_get_no_key(post, key);
        }
    } else {
        assert(post =~= seq![fields[0]] + obj_remove(fields.drop_first(), key));
        assert(post[0] == fields[0]);
        assert(post.drop_first() =~= obj_remove(fields.drop_first(), key));
        assert forall|i: int, j: int|
            0 <= i < j < fields.drop_first().len() implies (#[trigger] fields.drop_first()[
        i]).0 != (#[trigger] fields.drop_first()[j]).0 by {
            assert(fields.drop_first()[i] == fields[i + 1]);
            assert(fields.drop_first()[j] == fields[j + 1]);
        }
        lemma_obj_get_remove(fields.drop_first(), key, k2);
    }
}

/// No entry with a key means the lookup misses.
pub proof fn lemma_obj_get_no_key(fields: Seq<(Seq<char>, ValModel)>, key: Seq<char>)
    requires
        forall|j: int| 0 <= j < fields.len() ==> (#[trigger] fields[j]).0 != key,
    ensures
        obj_get(fields, key) is None,
    decreases fields.len(),
{
    if fields.len() > 0 {
        assert forall|j: int| 0 <= j < fields.len() - 1 implies (
        #[trigger] fields.drop_first()[j]).0 != key by {
            assert(fields.drop_first()[j] == fields[j + 1]);
        }
        lemma_obj_get_no_key(fields.drop_first(), key);
    }
}

/// `obj_set` keeps an object well formed when the new value is.
pub proof fn lemma_obj_set_wf(
    fields: Seq<(Seq<char>, ValModel)>,
    key: Seq<char>,
    value: ValModel,
)
    requires
        model_wf(ValModel::Obj(fields)),
        model_wf(value),
    ensures
        model_wf(ValModel::Obj(obj_set(fields, key, value))),
    decreases fields.len(),
{
    lemma_obj_wf_parts(ValModel::Obj(fields), fields);
    let post = obj_set(fields, key, value);
    if fields.len() == 0 {
        assert(post =~= seq![(key, value)]);
        lemma_obj_wf_whole(ValModel::Obj(post), post);
    } else if fields[0].0 == key {
        assert(post =~= seq![(key, value)] + fields.drop_first());
        assert forall|i: int| 0 <= i < post.len() implies model_wf(
            (#[trigger] post[i]).1,
        ) by {
            if i > 0 {
                assert(post[i] == fields[i]);
            }
        }
        assert forall|i: int, j: int| 0 <= i < j < post.len() implies (
        #[trigger] post[i]).0 != (#[trigger] post[j]).0 by {
            if i > 0 {
                assert(post[i] == fields[i]);
            }
            assert(post[j] == fields[j]);
        }
        lemma_obj_wf_whole(ValModel::Obj(post), post);
    } else {
        let sub = fields.drop_first();
        assert forall|i: int, j: int| 0 <= i < j < sub.len() implies (
        #[trigger] sub[i]).0 != (#[trigger] sub[j]).0 by {
            assert(sub[i] == fields[i + 1]);
            assert(sub[j] == fields[j + 1]);
        }
        assert forall|i: int| 0 <= i < sub.len() implies model_wf(
            (#[trigger] sub[i]).1,
        ) by {
            assert(sub[i] == fields[i + 1]);
        }
        lemma_obj_wf_whole(ValModel::Obj(sub), sub);
        lemma_obj_set_wf(sub, key, value);
        let postsub = obj_set(sub, key, value);
        lemma_obj_wf_parts(ValModel::Obj(postsub), postsub);
        assert(post =~= seq![fields[0]] + postsub);
        lemma_obj_set_keys(sub, key, value);
        assert forall|i: int| 0 <= i < post.len() implies model_wf(
            (#[trigger] post[i]).1,
        ) by {
            if i > 0 {
                assert(post[i] == postsub[i - 1]);
            }
        }
        assert forall|i: int, j: int| 0 <= i < j < post.len() implies (
        #[trigger] post[i]).0 != (#[trigger] post[j]).0 by {
            if i > 0 {
                assert(post[i] == postsub[i - 1]);
                assert(post[j] == postsub[j - 1]);
            } else {
                assert(post[j] == postsub[j - 1]);
                if postsub[j - 1].0 == key {
                } else {
                    let t = choose|t: int|
                        0 <= t < sub.len() && (#[trigger] sub[t]).0 == postsub[j - 1].0;
                    assert(sub[t] == fields[t + 1]);
                }
            }
        }
        lemma_obj_wf_whole(ValModel::Obj(post), post);
    }
}

/// Every key after `obj_set` is an old key or the new one.
pub proof fn lemma_obj_set_keys(
    fields: Seq<(Seq<char>, ValModel)>,
    key: Seq<char>,
    value: ValModel,
)
    ensures
        forall|j: int|
            0 <= j < obj_set(fields, key, value).len() ==> ((#[trigger] obj_set(
                fields,
                key,
                value,
            )[j]).0 == key || exists|t: int|
                0 <= t < fields.len() && (#[trigger] fields[t]).0 == obj_set(
                    fields,
                    key,
                    value,
                )[j].0),
    decreases fields.len(),
{
    let post = obj_set(fields, key, value);
    if fields.len() == 0 {
        assert(post =~= seq![(key, value)]);
    } else if fields[0].0 == key {
        assert(post =~= seq![(key, value)] + fields.drop_first());
        assert forall|j: int| 0 <= j < post.len() implies ((#[trigger] post[j]).0 == key
            || exists|t: int|
            0 <= t < fields.len() && (#[trigger] fields[t]).0 == post[j].0) by {
            if j > 0 {
                assert(post[j] == fields[j]);
                assert(fields[j].0 == post[j].0);
            }
        }
    } else {
        lemma_obj_set_keys(fields.drop_first(), key, value);
        let postsub = obj_set(fields.drop_first(), key, value);
        assert(post =~= seq![fields[0]] + postsub);
        assert forall|j: int| 0 <= j < post.len() implies ((#[trigger] post[j]).0 == key
            || exists|t: int|
            0 <= t < fields.len() && (#[trigger] fields[t]).0 == post[j].0) by {
            if j == 0 {
                assert(fields[0].0 == post[0].0);
            } else {
                assert(post[j] == postsub[j - 1]);
                if postsub[j - 1].0 != key {
                    let t = choose|t: int|
                        0 <= t < fields.drop_first().len() && (
                        #[trigger] fields.drop_first()[t]).0 == postsub[j - 1].0;
                    assert(fields.drop_first()[t] == fields[t + 1]);
                    assert(fields[t + 1].0 == post[j].0);
                }
            }
        }
    }
}

/// `obj_remove` keeps an object well formed.
pub proof fn lemma_obj_remove_wf(fields: Seq<(Seq<char>, ValModel)>, key: Seq<char>)
    requires
        model_wf(ValModel::Obj(fields)),
    ensures
        model_wf(ValModel::Obj(obj_remove(fields, key))),
    decreases fields.len(),
{
    lemma_obj_wf_parts(ValModel::Obj(fields), fields);
    let post = obj_remove(fields, key);
    if fields.len() == 0 {
        lemma_obj_wf_whole(ValModel::Obj(post), post);
    } else if fields[0].0 == key {
        assert(post =~= fields.drop_first());
        assert forall|i: int| 0 <= i < post.len() implies model_wf(
            (#[trigger] post[i]).1,
        ) by {
            assert(post[i] == fields[i + 1]);
        }
        assert forall|i: int, j: int| 0 <= i < j < post.len() implies (
        #[trigger] post[i]).0 != (#[trigger] post[j]).0 by {
            assert(post[i] == fields[i + 1]);
            assert(post[j] == fields[j + 1]);
        }
        lemma_obj_wf_whole(ValModel::Obj(post), post);
    } else {
        let sub = fields.drop_first();
        assert forall|i: int, j: int| 0 <= i < j < sub.len() implies (
        #[trigger] sub[i]).0 != (#[trigger] sub[j]).0 by {
            assert(sub[i] == fields[i + 1]);
            assert(sub[j] == fields[j + 1]);
        }
        assert forall|i: int| 0 <= i < sub.len() implies model_wf(
            (#[trigger] sub[i]).1,
        ) by {
            assert(sub[i] == fields[i + 1]);
        }
        lemma_obj_wf_whole(ValModel::Obj(sub), sub);
        lemma_obj_remove_wf(sub, key);
        let postsub = obj_remove(sub, key);
        lemma_obj_wf_parts(ValModel::Obj(postsub), postsub);
        assert(post =~= seq![fields[0]] + postsub);
        lemma_obj_remove_keys(sub, key);
        assert forall|i: int| 0 <= i < post.len() implies model_wf(
            (#[trigger] post[i]).1,
        ) by {
            if i > 0 {
                assert(post[i] == postsub[i - 1]);
            }
        }
        assert forall|i: int, j: int| 0 <= i < j < post.len() implies (
        #[trigger] post[i]).0 != (#[trigger] post[j]).0 by {
            if i > 0 {
                assert(post[i] == postsub[i - 1]);
                assert(post[j] == postsub[j - 1]);
            } else {
                assert(post[j] == postsub[j - 1]);
                let t = choose|t: int|
                    0 <= t < sub.len() && (#[trigger] sub[t]).0 == postsub[j - 1].0;
                assert(sub[t] == fields[t + 1]);
            }
        }
        lemma_obj_wf_whole(ValModel::Obj(post), post);
    }
}

/// Every key after `obj_remove` was a key before.
pub proof fn lemma_obj_remove_keys(fields: Seq<(Seq<char>, ValModel)>, key: Seq<char>)
    ensures
        forall|j: int|
            0 <= j < obj_remove(fields, key).len() ==> exists|t: int|
                0 <= t < fields.len() && (#[trigger] fields[t]).0 == (#[trigger] obj_remove(
                    fields,
                    key,
                )[j]).0,
    decreases fields.len(),
{
    let post = obj_remove(fields, key);
    if fields.len() == 0 {
    } else if fields[0].0 == key {
        assert(post =~= fields.drop_first());
        assert forall|j: int| 0 <= j < post.len() implies exists|t: int|
            0 <= t < fields.len() && (#[trigger] fields[t]).0 == (#[trigger] post[j]).0 by {
            assert(post[j] == fields[j + 1]);
            assert(fields[j + 1].0 == post[j].0);
        }
    } else {
        lemma_obj_remove_keys(fields.drop_first(), key);
        let postsub = obj_remove(fields.drop_first(), key);
        assert(post =~= seq![fields[0]] + postsub);
        assert forall|j: int| 0 <= j < post.len() implies exists|t: int|
            0 <= t < fields.len() && (#[trigger] fields[t]).0 == (#[trigger] post[j]).0 by {
            if j == 0 {
                assert(fields[0].0 == post[0].0);
            } else {
                assert(post[j] == postsub[j - 1]);
                let t = choose|t: int|
                    0 <= t < fields.drop_first().len() && (#[trigger] fields.drop_first()[
                    t]).0 == postsub[j - 1].0;
                assert(fields.drop_first()[t] == fields[t + 1]);
                assert(fields[t + 1].0 == post[j].0);
            }
        }
    }
}

impl Val {
    /// Whether this value is an object.
    pub fn is_object(&self) -> (r: bool)
        ensures
            r == (self@ is Obj),
    {
        match self {
            Val::Obj(_) => true,
            _ => false,
        }
    }

    /// A structurally equal copy of this value.
    pub fn deep_clone(&self) -> (r: Val)
        ensures
            r@ == self@,
        decreases self,
    {
        match self {
            Val::Null => Val::Null,
            Val::Bool(b) => Val::Bool(*b),
            Val::Int(i) => Val::Int(*i),
            Val::Str(s) => Val::Str(s.clone()),
            Val::Arr(items) => {
                let out = clone_vals_from(items, 0);
                proof {
                    lemma_models_pointwise(out@, items@);
                }
                Val::Arr(out)
            },
            Val::Obj(fields) => {
                let out = clone_fields_from(fields, 0);
                proof {
                    lemma_field_models_pointwise(out@, fields@);
                }
                Val::Obj(out)
            },
        }
    }

    /// The value stored under `key`, when this value is an object that
    /// contains it.
    pub fn get<'a>(&'a self, key: &str) -> (r: Option<&'a Val>)
        ensures
            match r {
                Option::Some(v) => val_get(self@, key@) == Option::Some(v@),
                Option::None => val_get(self@, key@) is None,
            },
    {
        match self {
            Val::Obj(fields) => {
                let ghost m = field_models(fields@);
                proof {
                    assert(self@ == ValModel::Obj(m));
                    assert(m.skip(0) =~= m);
                }
                let mut k: usize = 0;
                while k < fields.len()
                    invariant
                        k <= fields.len(),
                        m == field_models(fields@),
                        self@ == ValModel::Obj(m),
                        obj_get(m, key@) == obj_get(m.skip(k as int), key@),
                    decreases fields.len() - k,
                {
                    proof {
                        lemma_field_models_index(fields@, k as int);
                        assert(m.skip(k as int)[0] == m[k as int]);
                        assert(m.skip(k as int).drop_first() =~= m.skip(k as int + 1));
                    }
                    let pair = &fields[k];
                    if crate::strutil::str_eq(pair.0.as_str(), key) {
                        proof {
                            assert(m[k as int] == (fields@[k as int].0@, val_model(
                                fields@[k as int].1,
                            )));
                            assert(obj_get(m.skip(k as int), key@) == Option::Some(
                                m[k as int].1,
                            ));
                        }
                        return Option::Some(&pair.1);
                    }
                    k = k + 1;
                }
                proof {
                    lemma_field_models_len(fields@);
                    assert(m.skip(k as int).len() == 0);
                }
                Option::None
            },
            _ => Option::None,
        }
    }
}

impl Val {
    /// Sets `key` to `value` when this value is an object: replaces the
    /// existing entry or appends a new one.  Any other value is left
    /// unchanged.
    pub fn set(&mut self, key: &str, value: Val)
        ensures
            match old(self)@ {
                ValModel::Obj(fields) => final(self)@ == ValModel::Obj(
                    obj_set(fields, key@, value@),
                ),
                _ => final(self)@ == old(self)@,
            },
    {
        let ghost gv = value@;
        let mut owned = Val::Null;
        core::mem::swap(self, &mut owned);
        match owned {
            Val::Obj(mut fields) => {
                let ghost m = field_models(fields@);
                proof {
                    assert(old(self)@ == ValModel::Obj(m));
                }
                let mut k: usize = 0;
                while k < fields.len()
                    invariant
                        old(self)@ == ValModel::Obj(m),
                        k <= fields@.len(),
                        m == field_models(fields@),
                        forall|j: int| 0 <= j < k ==> (#[trigger] m[j]).0 != key@,
                        gv == value@,
                    decreases fields@.len() - k,
                {
                    proof {
                        lemma_field_models_index(fields@, k as int);
                    }
                    if crate::strutil::str_eq(fields[k].0.as_str(), key) {
                        let ghost pre = fields@;
                        fields[k].1 = value;
                        proof {
                            lemma_obj_set_at(m, key@, gv, k as int);
                            assert(field_models(fields@) =~= m.update(
                                k as int,
                                (key@, gv),
                            )) by {
                                lemma_field_models_update(pre, fields@, k as int);
                            }
                        }
                        *self = Val::Obj(fields);
                        return;
                    }
                    k = k + 1;
                }
                proof {
                    lemma_field_models_len(fields@);
                    lemma_obj_set_absent(m, key@, gv);
                }
                let ghost pre = fields@;
                let entry = (key.to_owned(), value);
                let ghost gentry = entry;
                fields.push(entry);
                proof {
                    lemma_field_models_push(pre, gentry);
                    assert(field_models(fields@) =~= m.push((key@, gv)));
                }
                *self = Val::Obj(fields);
            },
            other => {
                *self = other;
            },
        }
    }

    /// Removes `key` when this value is an object that contains it.
    pub fn remove_key(&mut self, key: &str)
        ensures
            match old(self)@ {
                ValModel::Obj(fields) => final(self)@ == ValModel::Obj(
                    obj_remove(fields, key@),
                ),
                _ => final(self)@ == old(self)@,
            },
    {
        let mut owned = Val::Null;
        core::mem::swap(self, &mut owned);
        match owned {
            Val::Obj(mut fields) => {
                let ghost m = field_models(fields@);
                proof {
                    assert(old(self)@ == ValModel::Obj(m));
                }
                let mut k: usize = 0;
                while k < fields.len()
                    invariant
                        old(self)@ == ValModel::Obj(m),
                        k <= fields@.len(),
                        m == field_models(fields@),
                        forall|j: int| 0 <= j < k ==> (#[trigger] m[j]).0 != key@,
                    decreases fields@.len() - k,
                {
                    proof {
                        lemma_field_models_index(fields@, k as int);
                    }
                    if crate::strutil::str_eq(fields[k].0.as_str(), key) {
                        let ghost pre = fields@;
                        fields.remove(k);
                        proof {
                            lemma_obj_remove_at(m, key@, k as int);
                            lemma_field_models_remove(pre, k as int);
                            assert(field_models(fields@) =~= m.remove(k as int));
                        }
                        *self = Val::Obj(fields);
                        return;
                    }
                    k = k + 1;
                }
                proof {
                    lemma_field_models_len(fields@);
                    lemma_obj_remove_absent(m, key@);
                }
                *self = Val::Obj(fields);
            },
            other => {
                *self = other;
            },
        }
    }
}

/// Setting a key present at index `i` (and nowhere earlier) replaces
/// just that entry.
proof fn lemma_obj_set_at(m: Seq<(Seq<char>, ValModel)>, key: Seq<char>, v: ValModel, i: int)
    requires
        0 <= i < m.len(),
        m[i].0 == key,
        forall|j: int| 0 <= j < i ==> (#[trigger] m[j]).0 != key,
    ensures
        obj_set(m, key, v) == m.update(i, (key, v)),
    decreases i,
{
    if i == 0 {
        assert(obj_set(m, key, v) =~= m.update(0, (key, v)));
    } else {
        assert(m.drop_first()[i - 1] == m[i]);
        lemma_obj_set_at(m.drop_first(), key, v, i - 1);
        assert(obj_set(m, key, v) =~= m.update(i, (key, v)));
    }
}

/// Setting an absent key appends it.
proof fn lemma_obj_set_absent(m: Seq<(Seq<char>, ValModel)>, key: Seq<char>, v: ValModel)
    requires
        forall|j: int| 0 <= j < m.len() ==> (#[trigger] m[j]).0 != key,
    ensures
        obj_set(m, key, v) == m.push((key, v)),
    decreases m.len(),
{
    if m.len() == 0 {
        assert(obj_set(m, key, v) =~= m.push((key, v)));
    } else {
        lemma_obj_set_absent(m.drop_first(), key, v);
        assert(obj_set(m, key, v) =~= m.push((key, v)));
    }
}

/// Removing a key present at index `i` (and nowhere earlier) removes
/// just that entry.
proof fn lemma_obj_remove_at(m: Seq<(Seq<char>, ValModel)>, key: Seq<char>, i: int)
    requires
        0 <= i < m.len(),
        m[i].0 == key,
        forall|j: int| 0 <= j < i ==> (#[trigger] m[j]).0 != key,
    ensures
        obj_remove(m, key) == m.remove(i),
    decreases i,
{
    if i == 0 {
        assert(obj_remove(m, key) =~= m.remove(0));
    } else {
        assert(m.drop_first()[i - 1] == m[i]);
        lemma_obj_remove_at(m.drop_first(), key, i - 1);
        assert(obj_remove(m, key) =~= m.remove(i));
    }
}

/// Removing an absent key changes nothing.
proof fn lemma_obj_remove_absent(m: Seq<(Seq<char>, ValModel)>, key: Seq<char>)
    requires
        forall|j: int| 0 <= j < m.len() ==> (#[trigger] m[j]).0 != key,
    ensures
        obj_remove(m, key) == m,
    decreases m.len(),
{
    if m.len() > 0 {
        lemma_obj_remove_absent(m.drop_first(), key);
        assert(obj_remove(m, key) =~= m);
    } else {
        assert(obj_remove(m, key) =~= m);
    }
}

/// Field models after updating one entry's value in place.
proof fn lemma_field_models_update(pre: Seq<(String, Val)>, post: Seq<(String, Val)>, i: int)
    requires
        0 <= i < pre.len(),
        post.len() == pre.len(),
        post[i].0@ == pre[i].0@,
        forall|j: int| 0 <= j < pre.len() && j != i ==> post[j] == pre[j],
    ensures
        field_models(post) == field_models(pre).update(
            i,
            (post[i].0@, val_model(post[i].1)),
        ),
{
    lemma_field_models_len(pre);
    lemma_field_models_len(post);
    assert forall|j: int| 0 <= j < pre.len() implies #[trigger] field_models(post)[j]
        == field_models(pre).update(i, (post[i].0@, val_model(post[i].1)))[j] by {
        lemma_field_models_index(pre, j);
        lemma_field_models_index(post, j);
    }
    assert(field_models(post) =~= field_models(pre).update(
        i,
        (post[i].0@, val_model(post[i].1)),
    ));
}

/// Field models after appending an entry.
proof fn lemma_field_models_push(pre: Seq<(String, Val)>, p: (String, Val))
    ensures
        field_models(pre.push(p)) == field_models(pre).push((p.0@, val_model(p.1))),
{
    lemma_field_models_len(pre);
    lemma_field_models_len(pre.push(p));
    assert forall|j: int| 0 <= j < pre.len() + 1 implies #[trigger] field_models(
        pre.push(p),
    )[j] == field_models(pre).push((p.0@, val_model(p.1)))[j] by {
        lemma_field_models_index(pre.push(p), j);
        if j < pre.len() {
            lemma_field_models_index(pre, j);
            assert(pre.push(p)[j] == pre[j]);
        } else {
            assert(pre.push(p)[j] == p);
        }
    }
    assert(field_models(pre.push(p)) =~= field_models(pre).push((p.0@, val_model(p.1))));
}

/// Field models after removing an entry.
proof fn lemma_field_models_remove(pre: Seq<(String, Val)>, i: int)
    requires
        0 <= i < pre.len(),
    ensures
        field_models(pre.remove(i)) == field_models(pre).remove(i),
{
    lemma_field_models_len(pre);
    lemma_field_models_len(pre.remove(i));
    assert forall|j: int| 0 <= j < pre.len() - 1 implies #[trigger] field_models(
        pre.remove(i),
    )[j] == field_models(pre).remove(i)[j] by {
        lemma_field_models_index(pre.remove(i), j);
        if j < i {
            lemma_field_models_index(pre, j);
            assert(pre.remove(i)[j] == pre[j]);
        } else {
            lemma_field_models_index(pre, j + 1);
            assert(pre.remove(i)[j] == pre[j + 1]);
        }
    }
    assert(field_models(pre.remove(i)) =~= field_models(pre).remove(i));
}

fn clone_vals_from(items: &Vec<Val>, k: usize) -> (out: Vec<Val>)
    requires
        k <= items@.len(),
    ensures
        out@.len() == items@.len() - k,
        forall|i: int|
            0 <= i < out@.len() ==> val_model(#[trigger] out@[i]) == val_model(
                items@[k + i],
            ),
    decreases items, items@.len() - k,
{
    if k < items.len() {
        let first = items[k].deep_clone();
        let mut out = clone_vals_from(items, k + 1);
        out.insert(0, first);
        out
    } else {
        Vec::new()
    }
}

fn clone_fields_from(fields: &Vec<(String, Val)>, k: usize) -> (out: Vec<(String, Val)>)
    requires
        k <= fields@.len(),
    ensures
        out@.len() == fields@.len() - k,
        forall|i: int|
            0 <= i < out@.len() ==> (#[trigger] out@[i]).0@ == fields@[k + i].0@
                && val_model(out@[i].1) == val_model(fields@[k + i].1),
    decreases fields, fields@.len() - k,
{
    if k < fields.len() {
        let pair = &fields[k];
        let key = pair.0.clone();
        let value = pair.1.deep_clone();
        let mut out = clone_fields_from(fields, k + 1);
        out.insert(0, (key, value));
        out
    } else {
        Vec::new()
    }
}

pub proof fn lemma_val_models_cons(x: Val, s: Seq<Val>)
    ensures
        val_models(seq![x] + s) == seq![val_model(x)] + val_models(s),
{
    let c = seq![x] + s;
    assert(c[0] == x);
    assert(c.drop_first() =~= s);
    assert(val_models(c) == seq![val_model(x)] + val_models(s));
}

pub proof fn lemma_field_models_cons(p: (String, Val), s: Seq<(String, Val)>)
    ensures
        field_models(seq![p] + s) == seq![(p.0@, val_model(p.1))] + field_models(s),
{
    let c = seq![p] + s;
    assert(c[0] == p);
    assert(c.drop_first() =~= s);
    assert(field_models(c) == seq![(p.0@, val_model(p.1))] + field_models(s));
}

/// Two value sequences with pointwise equal models have equal models.
pub proof fn lemma_models_pointwise(a: Seq<Val>, b: Seq<Val>)
    requires
        a.len() == b.len(),
        forall|i: int| 0 <= i < a.len() ==> val_model(#[trigger] a[i]) == val_model(b[i]),
    ensures
        val_models(a) == val_models(b),
    decreases a.len(),
{
    if a.len() > 0 {
        lemma_models_pointwise(a.drop_first(), b.drop_first());
        assert(val_models(a) =~= val_models(b));
    } else {
        assert(val_models(a) =~= val_models(b));
    }
}

/// Two field sequences with pointwise equal keys and models have equal
/// field models.
pub proof fn lemma_field_models_pointwise(a: Seq<(String, Val)>, b: Seq<(String, Val)>)
    requires
        a.len() == b.len(),
        forall|i: int|
            0 <= i < a.len() ==> (#[trigger] a[i]).0@ == b[i].0@ && val_model(a[i].1)
                == val_model(b[i].1),
    ensures
        field_models(a) == field_models(b),
    decreases a.len(),
{
    if a.len() > 0 {
        lemma_field_models_pointwise(a.drop_first(), b.drop_first());
        assert(field_models(a) =~= field_models(b));
    } else {
        assert(field_models(a) =~= field_models(b));
    }
}

} // verus!

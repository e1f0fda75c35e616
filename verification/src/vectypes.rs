//! Vector documents, search results, and metadata filters.

use vstd::prelude::*;
use vstd::utf8::encode_utf8;
use crate::compression::{CompressionConfig, CompressionMode};
use crate::distance::{Distance, DIM_LIMIT, vec_ok};
use crate::jsonval::{Val, ValModel, val_model, val_get, obj_get, model_wf};
use crate::strutil::{str_eq, str_compare, str_contains, str_starts_with, str_ends_with,
    bytes_lt, occurs_at, contains_bytes};

verus! {

/// Configuration of a vector collection, frozen at creation.
#[derive(Debug)]
pub struct VectorConfig {
    pub dimensions: usize,
    pub distance: Distance,
    pub m: usize,
    pub ef_construction: usize,
    pub ef_search: usize,
    pub lazy_embedding: bool,
    pub embedding_model: Option<String>,
    pub compression: CompressionConfig,
}

/// The default target degree per layer.
pub fn default_m() -> (r: usize)
    ensures
        r == 16,
{
    16
}

/// The default candidate-list size during construction.
pub fn default_ef_construction() -> (r: usize)
    ensures
        r == 200,
{
    200
}

/// The default candidate-list size during search.
pub fn default_ef_search() -> (r: usize)
    ensures
        r == 50,
{
    50
}

impl VectorConfig {
    /// Whether the configuration is usable.
    pub open spec fn wf(self) -> bool {
        &&& 1 <= self.dimensions <= DIM_LIMIT
        &&& 2 <= self.m <= 1024
        &&& 1 <= self.ef_construction <= 4096
        &&& 1 <= self.ef_search <= 4096
        &&& self.compression.wf()
    }

    /// A configuration with the given dimensionality and the defaults
    /// elsewhere: cosine distance, degree 16, construction beam 200,
    /// search beam 50, no lazy embedding, delta compression.
    pub fn new(dimensions: usize) -> (r: VectorConfig)
        requires
            1 <= dimensions <= DIM_LIMIT,
        ensures
            r.wf(),
            r.dimensions == dimensions,
            r.distance is Cosine,
            r.m == 16,
            r.ef_construction == 200,
            r.ef_search == 50,
            !r.lazy_embedding,
    {
        VectorConfig {
            dimensions,
            distance: Distance::Cosine,
            m: default_m(),
            ef_construction: default_ef_construction(),
            ef_search: default_ef_search(),
            lazy_embedding: false,
            embedding_model: Option::None,
            compression: CompressionConfig::delta(),
        }
    }

    /// The same configuration with another distance metric.
    pub fn with_distance(self, distance: Distance) -> (r: VectorConfig)
        ensures
            r == (VectorConfig { distance, ..self }),
    {
        VectorConfig { distance, ..self }
    }

    /// The same configuration with another degree.
    pub fn with_m(self, m: usize) -> (r: VectorConfig)
        requires
            2 <= m <= 1024,
        ensures
            r.m == m,
            self.wf() ==> r.wf(),
    {
        VectorConfig { m, ..self }
    }

    /// The same configuration with lazy embedding under a model name.
    pub fn with_lazy_embedding(self, model: &str) -> (r: VectorConfig)
        ensures
            r.lazy_embedding,
            self.wf() ==> r.wf(),
    {
        VectorConfig {
            lazy_embedding: true,
            embedding_model: Option::Some(model.to_owned()),
            ..self
        }
    }

    /// The same configuration with the given compression settings.
    pub fn with_compression(self, config: CompressionConfig) -> (r: VectorConfig)
        requires
            config.wf(),
        ensures
            r.compression == config,
            self.wf() ==> r.wf(),
    {
        VectorConfig { compression: config, ..self }
    }

    /// The same configuration with default delta compression.
    pub fn with_delta_compression(self) -> (r: VectorConfig)
        ensures
            r.compression.mode is Delta,
            self.wf() ==> r.wf(),
    {
        VectorConfig { compression: CompressionConfig::delta(), ..self }
    }

    /// The same configuration with aggressive quantised compression.
    pub fn with_quantized_compression(self) -> (r: VectorConfig)
        ensures
            r.compression.mode is QuantizedDelta,
            self.wf() ==> r.wf(),
    {
        VectorConfig { compression: CompressionConfig::quantized(), ..self }
    }
}

/// A vector document: the id, the embedding, optional source text, and
/// JSON metadata.
#[derive(Debug)]
pub struct VectorDocument {
    pub id: u64,
    pub embedding: Option<Vec<i64>>,
    pub text: Option<String>,
    pub metadata: Val,
}

impl VectorDocument {
    /// A document with an embedding and no metadata.
    pub fn new(id: u64, embedding: Vec<i64>) -> (r: VectorDocument)
        ensures
            r.id == id,
            r.embedding matches Option::Some(e) && e@ == embedding@,
            r.metadata@ is Null,
    {
        VectorDocument {
            id,
            embedding: Option::Some(embedding),
            text: Option::None,
            metadata: Val::Null,
        }
    }

    /// A document carrying only text, for lazy embedding.
    pub fn from_text(id: u64, text: String) -> (r: VectorDocument)
        ensures
            r.id == id,
            r.embedding is None,
            r.text matches Option::Some(t) && t@ == text@,
    {
        VectorDocument {
            id,
            embedding: Option::None,
            text: Option::Some(text),
            metadata: Val::Null,
        }
    }

    /// The same document with metadata attached.
    pub fn with_metadata(self, metadata: Val) -> (r: VectorDocument)
        ensures
            r.id == self.id,
            r.embedding == self.embedding,
            r.text == self.text,
            r.metadata@ == metadata@,
    {
        VectorDocument { metadata, ..self }
    }

    /// Whether the document carries an embedding.
    pub fn has_embedding(&self) -> (r: bool)
        ensures
            r == (self.embedding is Some),
    {
        match self.embedding {
            Option::Some(_) => true,
            Option::None => false,
        }
    }
}

/// One search hit: the document, its distance, and its rank.
#[derive(Debug)]
pub struct VectorSearchResult {
    pub document: VectorDocument,
    pub score: i64,
    pub rank: usize,
}

impl VectorSearchResult {
    /// A search hit.
    pub fn new(document: VectorDocument, score: i64, rank: usize) -> (r:
        VectorSearchResult)
        ensures
            r.document == document,
            r.score == score,
            r.rank == rank,
    {
        VectorSearchResult { document, score, rank }
    }
}

/// A condition on one metadata field.
#[derive(Debug)]
pub enum FilterCondition {
    Eq(Val),
    Ne(Val),
    Gt(Val),
    Gte(Val),
    Lt(Val),
    Lte(Val),
    In(Vec<Val>),
    NotIn(Vec<Val>),
    Contains(String),
    StartsWith(String),
    EndsWith(String),
}

/// How two values compare for the ordering conditions: numbers by
/// value, strings byte-wise; any other pairing does not compare.
pub open spec fn spec_compare(a: ValModel, b: ValModel) -> Option<int> {
    match (a, b) {
        (ValModel::Int(x), ValModel::Int(y)) => Option::Some(
            if x < y {
                -1int
            } else if x > y {
                1int
            } else {
                0int
            },
        ),
        (ValModel::Str(x), ValModel::Str(y)) => Option::Some(
            if encode_utf8(x) == encode_utf8(y) {
                0int
            } else if bytes_lt(encode_utf8(x), encode_utf8(y)) {
                -1int
            } else {
                1int
            },
        ),
        _ => Option::None,
    }
}

/// Whether a sequence of values contains one equal to `x`.
pub open spec fn spec_value_in(vs: Seq<ValModel>, x: ValModel) -> bool {
    exists|i: int| 0 <= i < vs.len() && vs[i] == x
}

/// The model of a filter condition.
pub enum FilterConditionModel {
    Eq(ValModel),
    Ne(ValModel),
    Gt(ValModel),
    Gte(ValModel),
    Lt(ValModel),
    Lte(ValModel),
    In(Seq<ValModel>),
    NotIn(Seq<ValModel>),
    Contains(Seq<char>),
    StartsWith(Seq<char>),
    EndsWith(Seq<char>),
}

/// The model of a condition.
pub open spec fn cond_model(c: FilterCondition) -> FilterConditionModel {
    match c {
        FilterCondition::Eq(v) => FilterConditionModel::Eq(val_model(v)),
        FilterCondition::Ne(v) => FilterConditionModel::Ne(val_model(v)),
        FilterCondition::Gt(v) => FilterConditionModel::Gt(val_model(v)),
        FilterCondition::Gte(v) => FilterConditionModel::Gte(val_model(v)),
        FilterCondition::Lt(v) => FilterConditionModel::Lt(val_model(v)),
        FilterCondition::Lte(v) => FilterConditionModel::Lte(val_model(v)),
        FilterCondition::In(vs) => FilterConditionModel::In(crate::jsonval::val_models(vs@)),
        FilterCondition::NotIn(vs) => FilterConditionModel::NotIn(
            crate::jsonval::val_models(vs@),
        ),
        FilterCondition::Contains(s) => FilterConditionModel::Contains(s@),
        FilterCondition::StartsWith(s) => FilterConditionModel::StartsWith(s@),
        FilterCondition::EndsWith(s) => FilterConditionModel::EndsWith(s@),
    }
}

/// Whether a (possibly absent) metadata value satisfies a condition.
pub open spec fn spec_cond_matches(c: FilterConditionModel, value: Option<ValModel>)
    -> bool {
    match value {
        Option::None => false,
        Option::Some(v) => match c {
            FilterConditionModel::Eq(e) => v == e,
            FilterConditionModel::Ne(e) => v != e,
            FilterConditionModel::Gt(e) => spec_compare(v, e) == Option::Some(1int),
            FilterConditionModel::Gte(e) => spec_compare(v, e) == Option::Some(1int)
                || spec_compare(v, e) == Option::Some(0int),
            FilterConditionModel::Lt(e) => spec_compare(v, e) == Option::Some(-1int),
            FilterConditionModel::Lte(e) => spec_compare(v, e) == Option::Some(-1int)
                || spec_compare(v, e) == Option::Some(0int),
            FilterConditionModel::In(vs) => spec_value_in(vs, v),
            FilterConditionModel::NotIn(vs) => !spec_value_in(vs, v),
            FilterConditionModel::Contains(s) => v matches ValModel::Str(t)
                && contains_bytes(encode_utf8(t), encode_utf8(s)),
            FilterConditionModel::StartsWith(s) => v matches ValModel::Str(t) && occurs_at(
                encode_utf8(t),
                encode_utf8(s),
                0,
            ),
            FilterConditionModel::EndsWith(s) => v matches ValModel::Str(t) && occurs_at(
                encode_utf8(t),
                encode_utf8(s),
                encode_utf8(t).len() - encode_utf8(s).len(),
            ),
        },
    }
}

/// Structural equality of two values, which coincides with equality of
/// their models.
pub fn val_eq(a: &Val, b: &Val) -> (r: bool)
    ensures
        r == (a@ == b@),
    decreases a,
{
    match (a, b) {
        (Val::Null, Val::Null) => true,
        (Val::Bool(x), Val::Bool(y)) => x == y,
        (Val::Int(x), Val::Int(y)) => x == y,
        (Val::Str(x), Val::Str(y)) => str_eq(x.as_str(), y.as_str()),
        (Val::Arr(xs), Val::Arr(ys)) => {
            proof {
                crate::jsonval::lemma_val_models_len(xs@);
                crate::jsonval::lemma_val_models_len(ys@);
            }
            if xs.len() != ys.len() {
                return false;
            }
            let r = vals_eq_from(xs, ys, 0);
            proof {
                if r {
                    crate::jsonval::lemma_models_pointwise(xs@, ys@);
                } else {
                    let i = choose|i: int|
                        0 <= i < xs@.len() && crate::jsonval::val_model(
                            #[trigger] xs@[i],
                        ) != crate::jsonval::val_model(ys@[i]);
                    crate::jsonval::lemma_val_models_index(xs@, i);
                    crate::jsonval::lemma_val_models_index(ys@, i);
                    assert(crate::jsonval::val_models(xs@)[i]
                        != crate::jsonval::val_models(ys@)[i]);
                }
            }
            r
        },
        (Val::Obj(xs), Val::Obj(ys)) => {
            proof {
                crate::jsonval::lemma_field_models_len(xs@);
                crate::jsonval::lemma_field_models_len(ys@);
            }
            if xs.len() != ys.len() {
                return false;
            }
            let r = fields_eq_from(xs, ys, 0);
            proof {
                if r {
                    crate::jsonval::lemma_field_models_pointwise(xs@, ys@);
                } else {
                    let i = choose|i: int|
                        0 <= i < xs@.len() && !((#[trigger] xs@[i]).0@ == ys@[i].0@
                            && crate::jsonval::val_model(xs@[i].1)
                            == crate::jsonval::val_model(ys@[i].1));
                    crate::jsonval::lemma_field_models_index(xs@, i);
                    crate::jsonval::lemma_field_models_index(ys@, i);
                    assert(crate::jsonval::field_models(xs@)[i]
                        != crate::jsonval::field_models(ys@)[i]);
                }
            }
            r
        },
        _ => {
            proof {
                assert(a@ != b@);
            }
            false
        },
    }
}

fn vals_eq_from(xs: &Vec<Val>, ys: &Vec<Val>, k: usize) -> (r: bool)
    requires
        xs@.len() == ys@.len(),
        k <= xs@.len(),
    ensures
        r == (forall|i: int|
            k <= i < xs@.len() ==> crate::jsonval::val_model(#[trigger] xs@[i])
                == crate::jsonval::val_model(ys@[i])),
    decreases xs, xs@.len() - k,
{
    if k < xs.len() {
        let xe = &xs[k];
        if !val_eq(xe, &ys[k]) {
            return false;
        }
        let rest = vals_eq_from(xs, ys, k + 1);
        if !rest {
            return false;
        }
        true
    } else {
        true
    }
}

fn fields_eq_from(xs: &Vec<(String, Val)>, ys: &Vec<(String, Val)>, k: usize) -> (r: bool)
    requires
        xs@.len() == ys@.len(),
        k <= xs@.len(),
    ensures
        r == (forall|i: int|
            k <= i < xs@.len() ==> (#[trigger] xs@[i]).0@ == ys@[i].0@
                && crate::jsonval::val_model(xs@[i].1) == crate::jsonval::val_model(
                ys@[i].1,
            )),
    decreases xs, xs@.len() - k,
{
    if k < xs.len() {
        let xe = &xs[k];
        let ye = &ys[k];
        if !str_eq(xe.0.as_str(), ye.0.as_str()) {
            return false;
        }
        if !val_eq(&xe.1, &ye.1) {
            return false;
        }
        let rest = fields_eq_from(xs, ys, k + 1);
        if !rest {
            return false;
        }
        true
    } else {
        true
    }
}

fn compare_values(a: &Val, b: &Val) -> (r: Option<i8>)
    ensures
        match spec_compare(a@, b@) {
            Option::Some(c) => r == Option::Some(c as i8),
            Option::None => r is None,
        },
{
    match (a, b) {
        (Val::Int(x), Val::Int(y)) => {
            if x < y {
                Option::Some(-1)
            } else if x > y {
                Option::Some(1)
            } else {
                Option::Some(0)
            }
        },
        (Val::Str(x), Val::Str(y)) => {
            let c = str_compare(x.as_str(), y.as_str());
            proof {
                if encode_utf8(x@) == encode_utf8(y@) {
                    crate::strutil::lemma_encode_utf8_injective(x@, y@);
                }
            }
            Option::Some(c)
        },
        _ => Option::None,
    }
}

impl FilterCondition {
    /// Whether a (possibly absent) metadata value satisfies this
    /// condition; agrees exactly with [`spec_cond_matches`].
    pub fn matches(&self, value: Option<&Val>) -> (r: bool)
        ensures
            r == spec_cond_matches(
                cond_model(*self),
                match value {
                    Option::Some(v) => Option::Some(v@),
                    Option::None => Option::None::<ValModel>,
                },
            ),
    {
        let v = match value {
            Option::Some(v) => v,
            Option::None => {
                return false;
            },
        };
        match self {
            FilterCondition::Eq(e) => val_eq(v, e),
            FilterCondition::Ne(e) => !val_eq(v, e),
            FilterCondition::Gt(e) => match compare_values(v, e) {
                Option::Some(c) => c == 1,
                Option::None => false,
            },
            FilterCondition::Gte(e) => match compare_values(v, e) {
                Option::Some(c) => c == 1 || c == 0,
                Option::None => false,
            },
            FilterCondition::Lt(e) => match compare_values(v, e) {
                Option::Some(c) => c == -1,
                Option::None => false,
            },
            FilterCondition::Lte(e) => match compare_values(v, e) {
                Option::Some(c) => c == -1 || c == 0,
                Option::None => false,
            },
            FilterCondition::In(vs) => {
                let mut k: usize = 0;
                let ghost m = crate::jsonval::val_models(vs@);
                proof {
                    crate::jsonval::lemma_val_models_len(vs@);
                }
                proof {
                    assert(cond_model(*self) == FilterConditionModel::In(m));
                }
                while k < vs.len()
                    invariant
                        m == crate::jsonval::val_models(vs@),
                        cond_model(*self) == FilterConditionModel::In(m),
                        value matches Option::Some(vv) && vv@ == v@,
                        m.len() == vs@.len(),
                        k <= vs@.len(),
                        forall|i: int| 0 <= i < k ==> #[trigger] m[i] != v@,
                    decreases vs@.len() - k,
                {
                    proof {
                        crate::jsonval::lemma_val_models_index(vs@, k as int);
                    }
                    let e = &vs[k];
                    if val_eq(v, e) {
                        proof {
                            assert(m[k as int] == v@);
                            assert(spec_value_in(m, v@));
                            assert(spec_cond_matches(
                                cond_model(*self),
                                Option::Some(v@),
                            ));
                        }
                        return true;
                    }
                    k = k + 1;
                }
                proof {
                    assert(!spec_value_in(m, v@));
                }
                false
            },
            FilterCondition::NotIn(vs) => {
                let mut k: usize = 0;
                let ghost m = crate::jsonval::val_models(vs@);
                proof {
                    crate::jsonval::lemma_val_models_len(vs@);
                }
                proof {
                    assert(cond_model(*self) == FilterConditionModel::NotIn(m));
                }
                while k < vs.len()
                    invariant
                        m == crate::jsonval::val_models(vs@),
                        cond_model(*self) == FilterConditionModel::NotIn(m),
                        value matches Option::Some(vv) && vv@ == v@,
                        m.len() == vs@.len(),
                        k <= vs@.len(),
                        forall|i: int| 0 <= i < k ==> #[trigger] m[i] != v@,
                    decreases vs@.len() - k,
                {
                    proof {
                        crate::jsonval::lemma_val_models_index(vs@, k as int);
                    }
                    let e = &vs[k];
                    if val_eq(v, e) {
                        proof {
                            assert(m[k as int] == v@);
                            assert(spec_value_in(m, v@));
                            assert(!spec_cond_matches(
                                cond_model(*self),
                                Option::Some(v@),
                            ));
                        }
                        return false;
                    }
                    k = k + 1;
                }
                proof {
                    assert(!spec_value_in(m, v@));
                }
                true
            },
            FilterCondition::Contains(s) => match v {
                Val::Str(t) => str_contains(t.as_str(), s.as_str()),
                _ => false,
            },
            FilterCondition::StartsWith(s) => match v {
                Val::Str(t) => str_starts_with(t.as_str(), s.as_str()),
                _ => false,
            },
            FilterCondition::EndsWith(s) => match v {
                Val::Str(t) => str_ends_with(t.as_str(), s.as_str()),
                _ => false,
            },
        }
    }
}

/// A metadata filter: one condition per field, all of which must hold.
#[derive(Debug)]
pub struct MetadataFilter {
    pub filters: Vec<(String, FilterCondition)>,
}

/// The model of a filter: field name to condition, in order.
pub open spec fn filter_model(f: MetadataFilter) -> Seq<(Seq<char>, FilterConditionModel)> {
    Seq::new(f.filters@.len(), |i: int| (f.filters@[i].0@, cond_model(f.filters@[i].1)))
}

/// Whether metadata satisfies every condition of a filter.
pub open spec fn spec_filter_matches(
    conds: Seq<(Seq<char>, FilterConditionModel)>,
    metadata: ValModel,
) -> bool {
    forall|i: int|
        0 <= i < conds.len() ==> spec_cond_matches(
            (#[trigger] conds[i]).1,
            val_get(metadata, conds[i].0),
        )
}

impl MetadataFilter {
    /// An empty filter, which every document satisfies.
    pub fn new() -> (r: MetadataFilter)
        ensures
            filter_model(r).len() == 0,
    {
        MetadataFilter { filters: Vec::new() }
    }

    /// The filter extended with an equality condition.
    pub fn eq(self, field: &str, value: Val) -> (r: MetadataFilter)
        ensures
            filter_model(r) == filter_model(self).push(
                (field@, FilterConditionModel::Eq(value@)),
            ),
    {
        let ghost pre = filter_model(self);
        let mut filters = self.filters;
        filters.push((field.to_owned(), FilterCondition::Eq(value)));
        let r = MetadataFilter { filters };
        proof {
            assert(filter_model(r) =~= pre.push((field@, FilterConditionModel::Eq(value@))));
        }
        r
    }

    /// The filter extended with a greater-than condition.
    pub fn gt(self, field: &str, value: Val) -> (r: MetadataFilter)
        ensures
            filter_model(r) == filter_model(self).push(
                (field@, FilterConditionModel::Gt(value@)),
            ),
    {
        let ghost pre = filter_model(self);
        let mut filters = self.filters;
        filters.push((field.to_owned(), FilterCondition::Gt(value)));
        let r = MetadataFilter { filters };
        proof {
            assert(filter_model(r) =~= pre.push((field@, FilterConditionModel::Gt(value@))));
        }
        r
    }

    /// Whether a document's metadata satisfies this filter; agrees
    /// exactly with [`spec_filter_matches`].
    pub fn matches(&self, metadata: &Val) -> (r: bool)
        ensures
            r == spec_filter_matches(filter_model(*self), metadata@),
    {
        let ghost m = filter_model(*self);
        let mut k: usize = 0;
        while k < self.filters.len()
            invariant
                m == filter_model(*self),
                k <= self.filters@.len(),
                forall|i: int|
                    0 <= i < k ==> spec_cond_matches(
                        (#[trigger] m[i]).1,
                        val_get(metadata@, m[i].0),
                    ),
            decreases self.filters@.len() - k,
        {
            let pair = &self.filters[k];
            let value = metadata.get(pair.0.as_str());
            if !pair.1.matches(value) {
                proof {
                    assert(m[k as int] == (self.filters@[k as int].0@, cond_model(
                        self.filters@[k as int].1,
                    )));
                    assert(!spec_cond_matches(
                        m[k as int].1,
                        val_get(metadata@, m[k as int].0),
                    ));
                }
                return false;
            }
            k = k + 1;
        }
        true
    }
}

/// Statistics reported for a vector collection.
#[derive(Debug)]
pub struct VectorCollectionStats {
    pub name: String,
    pub vector_count: usize,
    pub dimensions: usize,
    pub distance: Distance,
    pub memory_bytes: usize,
    pub hnsw_layers: usize,
    pub lazy_embedding: bool,
    pub compression_mode: CompressionMode,
    pub compression_ratio: u64,
    pub anchor_count: usize,
    pub delta_count: usize,
}

} // verus!

//! Embedding providers: pure functions from text to a fixed-dimension
//! vector in fixed-point coordinates.
//!
//! Two built-in providers exist: a deterministic pseudo-random one for
//! exercising the stack, and a hashed bag-of-words one for basic
//! semantic search without a model.  Both normalise their output.

use vstd::prelude::*;
use crate::distance::{vec_ok, normalize, COORD_LIMIT, DIM_LIMIT, FIXED_ONE};
use crate::error::KeraDBError;

verus! {

/// What every embedding provider offers: an embedding of a text, its
/// dimensionality, and a model name.
pub trait EmbeddingProvider {
    /// Embeds one text.
    fn embed(&self, text: &str) -> (r: Result<Vec<i64>, KeraDBError>)
        ensures
            r is Ok <==> 1 <= self.dims() <= DIM_LIMIT,
            r matches Result::Ok(v) ==> vec_ok(v@) && v@.len() == self.dims(),
            r matches Result::Err(e) ==> e is EmbeddingError,
    ;

    /// The dimensionality of embeddings.
    spec fn dims(&self) -> int;

    /// The dimensionality of embeddings.
    fn dimensions(&self) -> (r: usize)
        ensures
            r == self.dims(),
    ;

    /// The model name, as a specification value.
    spec fn spec_model_name(&self) -> Seq<char>;

    /// The model name.
    fn model_name(&self) -> (r: &'static str)
        ensures
            r@ == self.spec_model_name(),
    ;
}

/// A 64-bit mixing hash over a string's bytes.
fn hash_text(text: &str) -> u64 {
    let bytes = text.as_bytes();
    let mut h: u64 = 0xcbf29ce484222325u64;
    let mut k: usize = 0;
    while k < bytes.len()
        invariant
            k <= bytes@.len(),
        decreases bytes@.len() - k,
    {
        h = (h ^ (bytes[k] as u64)).wrapping_mul(0x100000001b3u64);
        k = k + 1;
    }
    h
}

/// A provider that derives a deterministic pseudo-random unit vector
/// from the text's hash.
#[derive(Debug)]
pub struct MockEmbeddingProvider {
    pub dimensions: usize,
}

impl MockEmbeddingProvider {
    /// A provider of the given dimensionality.
    pub fn new(dimensions: usize) -> (r: MockEmbeddingProvider)
        requires
            1 <= dimensions <= DIM_LIMIT,
        ensures
            r.dims() == dimensions,
    {
        MockEmbeddingProvider { dimensions }
    }
}

impl EmbeddingProvider for MockEmbeddingProvider {
    open spec fn dims(&self) -> int {
        self.dimensions as int
    }

    fn dimensions(&self) -> (r: usize) {
        self.dimensions
    }

    open spec fn spec_model_name(&self) -> Seq<char> {
        "mock"@
    }

    fn model_name(&self) -> (r: &'static str) {
        "mock"
    }

    #[verifier::rlimit(50)]
    fn embed(&self, text: &str) -> (r: Result<Vec<i64>, KeraDBError>) {
        if self.dimensions == 0 || self.dimensions > DIM_LIMIT {
            return Result::Err(
                KeraDBError::EmbeddingError("provider dimensionality unusable".to_owned()),
            );
        }
        let seed = hash_text(text);
        let mut state = seed;
        let mut v: Vec<i64> = Vec::new();
        let mut k: usize = 0;
        while k < self.dimensions
            invariant
                self.dimensions <= DIM_LIMIT,
                k <= self.dimensions,
                v@.len() == k,
                forall|i: int|
                    0 <= i < k ==> -COORD_LIMIT <= #[trigger] v@[i] <= COORD_LIMIT,
            decreases self.dimensions - k,
        {
            state = state.wrapping_mul(6364136223846793005u64).wrapping_add(1442695040888963407u64);
            // Map the top bits into the coordinate range around zero.
            proof {
                assert(state >> 44 < 0x100000u64) by (bit_vector);
            }
            let raw = (state >> 44) as i64;
            let coord = raw - 524288;
            v.push(coord);
            k = k + 1;
        }
        normalize(&mut v);
        Result::Ok(v)
    }
}

/// A provider that hashes whitespace-separated words into buckets and
/// normalises the resulting term-count vector.
#[derive(Debug)]
pub struct TfIdfEmbeddingProvider {
    pub dimensions: usize,
}

impl TfIdfEmbeddingProvider {
    /// A provider of the given dimensionality.
    pub fn new(dimensions: usize) -> (r: TfIdfEmbeddingProvider)
        requires
            1 <= dimensions <= DIM_LIMIT,
        ensures
            r.dims() == dimensions,
    {
        TfIdfEmbeddingProvider { dimensions }
    }

    /// The hashed term counts of a text, one bucket per dimension.
    fn text_to_features(&self, text: &str) -> (r: Vec<i64>)
        requires
            1 <= self.dimensions <= DIM_LIMIT,
        ensures
            vec_ok(r@),
            r@.len() == self.dimensions,
    {
        let mut v: Vec<i64> = Vec::new();
        let mut k: usize = 0;
        while k < self.dimensions
            invariant
                self.dimensions <= DIM_LIMIT,
                k <= self.dimensions,
                v@.len() == k,
                forall|i: int| 0 <= i < k ==> #[trigger] v@[i] == 0i64,
            decreases self.dimensions - k,
        {
            v.push(0);
            k = k + 1;
        }
        // Split on ASCII whitespace, hash each word to a bucket, and
        // count.
        let bytes = text.as_bytes();
        if bytes.len() >= usize::MAX - 1 {
            normalize(&mut v);
            return v;
        }
        let mut start: usize = 0;
        let mut pos: usize = 0;
        while pos <= bytes.len()
            invariant
                bytes@.len() < usize::MAX - 1,
                start <= pos <= bytes@.len() + 1,
                v@.len() == self.dimensions,
                1 <= self.dimensions <= DIM_LIMIT,
                forall|i: int|
                    0 <= i < v@.len() ==> 0 <= #[trigger] v@[i] <= COORD_LIMIT,
            decreases bytes@.len() + 1 - pos,
        {
            let at_end = pos == bytes.len();
            let is_space = if at_end {
                true
            } else {
                let b = bytes[pos];
                b == 32 || b == 9 || b == 10 || b == 13
            };
            if is_space {
                if pos > start {
                    // Hash the word bytes.
                    let mut h: u64 = 0xcbf29ce484222325u64;
                    let mut w: usize = start;
                    while w < pos
                        invariant
                            start <= w <= pos,
                            pos <= bytes@.len(),
                        decreases pos - w,
                    {
                        let mut b = bytes[w];
                        // Fold ASCII upper case onto lower case.
                        if b >= 65 && b <= 90 {
                            b = b + 32;
                        }
                        h = (h ^ (b as u64)).wrapping_mul(0x100000001b3u64);
                        w = w + 1;
                    }
                    let idx = (h % (self.dimensions as u64)) as usize;
                    proof {
                        assert(h % (self.dimensions as u64) < self.dimensions as u64);
                    }
                    let cur = v[idx];
                    if cur < COORD_LIMIT {
                        v.set(idx, cur + 1);
                    }
                }
                start = pos + 1;
            }
            pos = pos + 1;
        }
        // Scale the counts up before normalising, so that small counts
        // survive integer division.
        let mut s: usize = 0;
        while s < v.len()
            invariant
                s <= v@.len(),
                v@.len() == self.dimensions,
                forall|i: int|
                    0 <= i < v@.len() ==> 0 <= #[trigger] v@[i] <= COORD_LIMIT,
            decreases v@.len() - s,
        {
            let c = v[s];
            let scaled = if c > 1000 {
                COORD_LIMIT
            } else {
                c * 1000
            };
            v.set(s, scaled);
            s = s + 1;
        }
        normalize(&mut v);
        v
    }
}

impl EmbeddingProvider for TfIdfEmbeddingProvider {
    open spec fn dims(&self) -> int {
        self.dimensions as int
    }

    fn dimensions(&self) -> (r: usize) {
        self.dimensions
    }

    open spec fn spec_model_name(&self) -> Seq<char> {
        "tfidf-hash"@
    }

    fn model_name(&self) -> (r: &'static str) {
        "tfidf-hash"
    }

    fn embed(&self, text: &str) -> (r: Result<Vec<i64>, KeraDBError>) {
        if self.dimensions == 0 || self.dimensions > DIM_LIMIT {
            return Result::Err(
                KeraDBError::EmbeddingError("provider dimensionality unusable".to_owned()),
            );
        }
        Result::Ok(self.text_to_features(text))
    }
}

/// Which embedding provider a database uses.
#[derive(Debug)]
pub enum EmbeddingConfig {
    Mock { dimensions: usize },
    TfIdf { dimensions: usize },
}

/// The provider a collection holds.
#[derive(Debug)]
pub enum ProviderKind {
    Mock(MockEmbeddingProvider),
    TfIdf(TfIdfEmbeddingProvider),
}

impl ProviderKind {
    /// The provider's dimensionality, as a specification value.
    pub open spec fn spec_dims(self) -> int {
        match self {
            ProviderKind::Mock(p) => p.dimensions as int,
            ProviderKind::TfIdf(p) => p.dimensions as int,
        }
    }

    /// Embeds one text through the chosen provider.  Succeeds exactly
    /// when the provider's dimensionality is usable.
    pub fn embed(&self, text: &str) -> (r: Result<Vec<i64>, KeraDBError>)
        ensures
            r is Ok <==> 1 <= self.spec_dims() <= DIM_LIMIT,
            r matches Result::Ok(v) ==> vec_ok(v@) && v@.len() == self.spec_dims(),
            r matches Result::Err(e) ==> e is EmbeddingError,
    {
        match self {
            ProviderKind::Mock(p) => p.embed(text),
            ProviderKind::TfIdf(p) => p.embed(text),
        }
    }

    /// The provider's dimensionality.
    pub fn dimensions(&self) -> (r: usize)
        ensures
            r == self.spec_dims(),
    {
        match self {
            ProviderKind::Mock(p) => p.dimensions(),
            ProviderKind::TfIdf(p) => p.dimensions(),
        }
    }
}

/// Builds the provider a configuration names.
pub fn create_provider(config: EmbeddingConfig) -> (r: Result<ProviderKind, KeraDBError>)
    ensures
        r is Ok <==> (match config {
            EmbeddingConfig::Mock { dimensions } => 1 <= dimensions <= DIM_LIMIT,
            EmbeddingConfig::TfIdf { dimensions } => 1 <= dimensions <= DIM_LIMIT,
        }),
{
    match config {
        EmbeddingConfig::Mock { dimensions } => {
            if dimensions >= 1 && dimensions <= DIM_LIMIT {
                Result::Ok(ProviderKind::Mock(MockEmbeddingProvider::new(dimensions)))
            } else {
                Result::Err(
                    KeraDBError::EmbeddingError("unusable dimensionality".to_owned()),
                )
            }
        },
        EmbeddingConfig::TfIdf { dimensions } => {
            if dimensions >= 1 && dimensions <= DIM_LIMIT {
                Result::Ok(ProviderKind::TfIdf(TfIdfEmbeddingProvider::new(dimensions)))
            } else {
                Result::Err(
                    KeraDBError::EmbeddingError("unusable dimensionality".to_owned()),
                )
            }
        },
    }
}

/// Scales a vector in place toward unit norm.
pub fn normalize_embedding(v: &mut Vec<i64>)
    requires
        vec_ok(old(v)@),
    ensures
        vec_ok(final(v)@),
        final(v)@.len() == old(v)@.len(),
{
    normalize(v);
}

/// Whether a vector's norm is within a thousandth of one unit.
pub fn is_normalized(v: &Vec<i64>) -> (r: bool)
    requires
        vec_ok(v@),
{
    let n = crate::distance::norm(v);
    let lo = FIXED_ONE - 1000;
    let hi = FIXED_ONE + 1000;
    n >= lo && n <= hi
}

} // verus!

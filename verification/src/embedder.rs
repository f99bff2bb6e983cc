//! What turns texts into vectors, as far as it needs no model and no network.

use crate::error::TurboError;
use crate::scalar::Scalar;
use crate::text::{chars_of, join2, text_between};
use vstd::prelude::*;

verus! {

/// The bit pattern of one tenth.
pub const TENTH_BITS: u32 = 0x3dcc_cccd;

/// An embedder that gives every text the same vector.
#[derive(Debug, Clone, Copy)]
pub struct MockEmbedder {
    pub dim: usize,
    pub fill_value: Scalar,
}

/// Whether there are `count` vectors, each of `dim` times the same number.
pub open spec fn all_filled(
    vectors: Seq<Vec<Scalar>>,
    count: nat,
    dim: usize,
    fill_value: Scalar,
) -> bool {
    &&& vectors.len() == count
    &&& forall|i: int|
        0 <= i < count ==> (#[trigger] vectors[i])@ == Seq::new(dim as nat, |j: int| fill_value)
}

impl MockEmbedder {
    /// An embedder that fills its vectors with one tenth.
    pub fn new(dim: usize) -> (embedder: Self)
        ensures
            embedder.dim == dim,
            embedder.fill_value.bits == TENTH_BITS,
    {
        MockEmbedder { dim, fill_value: Scalar { bits: TENTH_BITS } }
    }

    /// An embedder that fills its vectors with a given number.
    pub fn with_value(dim: usize, fill_value: Scalar) -> (embedder: Self)
        ensures
            embedder.dim == dim,
            embedder.fill_value == fill_value,
    {
        MockEmbedder { dim, fill_value }
    }

    /// One vector per text.
    pub fn embed_batch(&self, texts: &[String]) -> (r: Result<Vec<Vec<Scalar>>, TurboError>)
        ensures
            r matches Ok(vectors) && all_filled(
                vectors@,
                texts@.len(),
                self.dim,
                self.fill_value,
            ),
    {
        let mut vectors: Vec<Vec<Scalar>> = Vec::new();
        let mut i: usize = 0;
        while i < texts.len()
            invariant
                i <= texts@.len(),
                all_filled(vectors@, i as nat, self.dim, self.fill_value),
            decreases texts@.len() - i,
        {
            let mut vector: Vec<Scalar> = Vec::new();
            let mut j: usize = 0;
            while j < self.dim
                invariant
                    j <= self.dim,
                    vector@ == Seq::new(j as nat, |m: int| self.fill_value),
                decreases self.dim - j,
            {
                vector.push(self.fill_value);
                j = j + 1;
                proof {
                    assert(vector@ =~= Seq::new(j as nat, |m: int| self.fill_value));
                }
            }
            vectors.push(vector);
            i = i + 1;
        }
        Ok(vectors)
    }

    /// The vector of one text.
    pub fn embed_one(&self, text: &str) -> (r: Result<Vec<Scalar>, TurboError>)
        ensures
            r matches Ok(vector) && vector@ == Seq::new(self.dim as nat, |j: int| self.fill_value),
    {
        let mut texts: Vec<String> = Vec::new();
        texts.push(text.to_string());
        match self.embed_batch(texts.as_slice()) {
            Ok(batch) => single_embedding(batch),
            Err(e) => Err(e),
        }
    }

    /// The length of the vectors.
    pub fn dim(&self) -> (dim: usize)
        ensures
            dim == self.dim,
    {
        self.dim
    }

    /// The name of the model.
    pub fn model_name(&self) -> (name: &str)
        ensures
            name@ == "mock-embed"@,
    {
        "mock-embed"
    }
}

/// The vector of a single text, from the answer to a batch of one: the last one.
pub fn single_embedding(batch: Vec<Vec<Scalar>>) -> (r: Result<Vec<Scalar>, TurboError>)
    ensures
        r is Ok <==> batch@.len() > 0,
        r matches Ok(vector) ==> vector == batch@.last(),
        r matches Err(e) ==> e is Embedding && e.detail() == "empty embedding response"@,
{
    let mut batch = batch;
    match batch.pop() {
        Some(vector) => Ok(vector),
        None => Err(TurboError::Embedding("empty embedding response".to_string())),
    }
}

/// An embedder that gives every text a random vector of length one.
#[derive(Debug, Clone, Copy)]
pub struct SyntheticEmbedder {
    pub dim: usize,
}

impl SyntheticEmbedder {
    /// An embedder for vectors of the given length.
    pub fn new(dim: usize) -> (embedder: Self)
        ensures
            embedder.dim == dim,
    {
        SyntheticEmbedder { dim }
    }

    /// The length of the vectors.
    pub fn dim(&self) -> (dim: usize)
        ensures
            dim == self.dim,
    {
        self.dim
    }

    /// The name of the model.
    pub fn model_name(&self) -> (name: &str)
        ensures
            name@ == "synthetic"@,
    {
        "synthetic"
    }
}

/// A text without the slashes at its end.
pub open spec fn without_trailing_slashes(text: Seq<char>) -> Seq<char>
    decreases text.len(),
{
    if text.len() > 0 && text.last() == '/' {
        without_trailing_slashes(text.drop_last())
    } else {
        text
    }
}

/// An embedder behind an HTTP endpoint of the common shape.
#[derive(Debug, Clone)]
pub struct OpenAICompatBackend {
    base_url: String,
    api_key: Option<String>,
    model: String,
    dim: usize,
}

impl OpenAICompatBackend {
    /// The address of the endpoint, without slashes at its end.
    pub closed spec fn url(self) -> Seq<char> {
        self.base_url@
    }

    /// The key that requests carry.
    pub closed spec fn key(self) -> Option<String> {
        self.api_key
    }

    /// The name of the model.
    pub closed spec fn served_model(self) -> Seq<char> {
        self.model@
    }

    /// The length of the vectors.
    pub closed spec fn vector_dim(self) -> usize {
        self.dim
    }

    /// A model server on this machine, which needs no key.
    pub fn ollama(model: &str, dim: usize) -> (backend: Self)
        ensures
            backend.url() == "http://localhost:11434/v1"@,
            backend.key() is None,
            backend.served_model() == model@,
            backend.vector_dim() == dim,
    {
        proof {
            reveal_strlit("http://localhost:11434/v1");
        }
        Self::new("http://localhost:11434/v1", None, model, dim)
    }

    /// An endpoint at any address, with or without a key.
    pub fn new(base_url: &str, api_key: Option<String>, model: &str, dim: usize) -> (backend: Self)
        ensures
            backend.url() == without_trailing_slashes(base_url@),
            backend.url().is_prefix_of(base_url@),
            forall|i: int|
                backend.url().len() <= i < base_url@.len() ==> #[trigger] base_url@[i] == '/',
            backend.url().len() > 0 ==> backend.url().last() != '/',
            backend.key() == api_key,
            backend.served_model() == model@,
            backend.vector_dim() == dim,
    {
        proof {
            law_only_slashes_are_cut(base_url@);
            law_no_trailing_slash(base_url@);
        }
        let chars = chars_of(base_url);
        let mut end: usize = chars.len();
        proof {
            assert(chars@.take(end as int) =~= chars@);
        }
        while end > 0 && chars[end - 1] == '/'
            invariant
                end <= chars@.len(),
                without_trailing_slashes(chars@) == without_trailing_slashes(
                    chars@.take(end as int),
                ),
            decreases end,
        {
            proof {
                assert(chars@.take(end as int).drop_last() =~= chars@.take(end - 1));
            }
            end = end - 1;
        }
        proof {
            assert(chars@.subrange(0, end as int) =~= chars@.take(end as int));
        }
        OpenAICompatBackend {
            base_url: text_between(&chars, 0, end),
            api_key,
            model: model.to_string(),
            dim,
        }
    }

    /// The address of the endpoint.
    pub fn base_url(&self) -> (url: &str)
        ensures
            url@ == self.url(),
    {
        self.base_url.as_str()
    }

    /// Where embeddings are asked for.
    pub fn embeddings_url(&self) -> (url: String)
        ensures
            url@ == self.url() + "/embeddings"@,
    {
        join2(self.base_url.as_str(), "/embeddings")
    }

    /// The key that requests carry, if any.
    pub fn api_key(&self) -> (key: &Option<String>)
        ensures
            *key == self.key(),
    {
        &self.api_key
    }

    /// The vectors of a response, of which there must be one.
    pub fn accept(&self, vectors: Vec<Vec<Scalar>>) -> (r: Result<Vec<Vec<Scalar>>, TurboError>)
        ensures
            r is Ok <==> vectors@.len() > 0,
            r matches Ok(accepted) ==> accepted == vectors,
            r matches Err(e) ==> e is Embedding && e.detail() == "empty embeddings in response"@,
    {
        if vectors.len() == 0 {
            return Err(TurboError::Embedding("empty embeddings in response".to_string()));
        }
        Ok(vectors)
    }

    /// The length of the vectors.
    pub fn dim(&self) -> (dim: usize)
        ensures
            dim == self.vector_dim(),
    {
        self.dim
    }

    /// The name of the model.
    pub fn model_name(&self) -> (name: &str)
        ensures
            name@ == self.served_model(),
    {
        self.model.as_str()
    }
}

/// An address cut of its slashes ends in none, and cutting it again changes
/// nothing.
pub proof fn law_no_trailing_slash(text: Seq<char>)
    ensures
        without_trailing_slashes(text).len() > 0 ==> without_trailing_slashes(text).last() != '/',
        without_trailing_slashes(without_trailing_slashes(text)) == without_trailing_slashes(text),
    decreases text.len(),
{
    if text.len() > 0 && text.last() == '/' {
        law_no_trailing_slash(text.drop_last());
    }
}

/// All that is cut from an address is slashes at its end: what is left is how the
/// address begins, and every character after that is a slash. So an address that ends in
/// none is kept whole.
pub proof fn law_only_slashes_are_cut(text: Seq<char>)
    ensures
        without_trailing_slashes(text).is_prefix_of(text),
        forall|i: int|
            without_trailing_slashes(text).len() <= i < text.len() ==> #[trigger] text[i] == '/',
        text.len() > 0 && text.last() != '/' ==> without_trailing_slashes(text) == text,
    decreases text.len(),
{
    if text.len() > 0 && text.last() == '/' {
        let rest = text.drop_last();
        law_only_slashes_are_cut(rest);
        let kept = without_trailing_slashes(rest);
        assert(text.subrange(0, kept.len() as int) =~= rest.subrange(0, kept.len() as int));
        assert forall|i: int| kept.len() <= i < text.len() implies #[trigger] text[i] == '/' by {
            if i < rest.len() {
                assert(rest[i] == text[i]);
            }
        }
    } else {
        assert(text.subrange(0, text.len() as int) =~= text);
    }
}

/// An embedder that fills its vectors gives one per text, each of its own length, with
/// the one number at every place.
pub proof fn law_filled_throughout(
    vectors: Seq<Vec<Scalar>>,
    count: nat,
    dim: usize,
    fill_value: Scalar,
    i: int,
    j: int,
)
    requires
        all_filled(vectors, count, dim, fill_value),
        0 <= i < count,
    ensures
        vectors.len() == count,
        vectors[i]@.len() == dim,
        0 <= j < dim ==> vectors[i]@[j] == fill_value,
{
}

/// The models that run on this machine.
#[derive(Debug, Clone, Copy, PartialEq, Eq, Structural)]
pub enum LocalModel {
    BgeBaseEn,
    MxbaiLarge,
    BgeSmallEn,
}

impl LocalModel {
    /// The model for vectors of a length: there is one for 1024 and one for 384,
    /// and the base model for the rest.
    pub fn for_dim(dim: usize) -> (model: Self)
        ensures
            model == (if dim == 1024 {
                LocalModel::MxbaiLarge
            } else if dim == 384 {
                LocalModel::BgeSmallEn
            } else {
                LocalModel::BgeBaseEn
            }),
    {
        match dim {
            1024 => LocalModel::MxbaiLarge,
            384 => LocalModel::BgeSmallEn,
            _ => LocalModel::BgeBaseEn,
        }
    }

    /// The length of the model's vectors.
    pub fn dim(self) -> (dim: usize)
        ensures
            dim == (match self {
                LocalModel::BgeBaseEn => 768usize,
                LocalModel::MxbaiLarge => 1024usize,
                LocalModel::BgeSmallEn => 384usize,
            }),
    {
        match self {
            LocalModel::BgeBaseEn => 768,
            LocalModel::MxbaiLarge => 1024,
            LocalModel::BgeSmallEn => 384,
        }
    }

    /// The name of the model.
    pub fn model_name(self) -> (name: &'static str)
        ensures
            name@ == (match self {
                LocalModel::BgeBaseEn => "BGEBaseENV15"@,
                LocalModel::MxbaiLarge => "MxbaiEmbedLargeV1"@,
                LocalModel::BgeSmallEn => "BGESmallENV15"@,
            }),
    {
        match self {
            LocalModel::BgeBaseEn => "BGEBaseENV15",
            LocalModel::MxbaiLarge => "MxbaiEmbedLargeV1",
            LocalModel::BgeSmallEn => "BGESmallENV15",
        }
    }
}

} // verus!

//! Choosing the parts that the settings name.

use crate::blob::LocalFsBackend;
use crate::columnar::Batch;
use crate::config::AppConfig;
use crate::embedder::{
    law_only_slashes_are_cut, without_trailing_slashes, LocalModel, MockEmbedder,
    OpenAICompatBackend, SyntheticEmbedder, TENTH_BITS,
};
use crate::error::TurboError;
use crate::hybrid::{is_rebuilt, law_rebuild, route_of, HybridStore, Route};
use crate::lance_store::{stored_docs, LanceDbStore};
use crate::quantized::valid_shape;
use crate::request::SearchMode;
use crate::scalar::Scalar;
use crate::text::{join3, same};
use crate::turbovec_store::TurboVecStore;
use vstd::prelude::*;

verus! {

/// What turns texts into vectors.
pub enum Embedder {
    Local(LocalModel),
    OpenAICompat(OpenAICompatBackend),
    Synthetic(SyntheticEmbedder),
    Mock(MockEmbedder),
}

/// The model for vectors of a length.
pub open spec fn local_model(dim: usize) -> LocalModel {
    if dim == 1024 {
        LocalModel::MxbaiLarge
    } else if dim == 384 {
        LocalModel::BgeSmallEn
    } else {
        LocalModel::BgeBaseEn
    }
}

/// Whether `embedder` is the one that the settings describe.
pub open spec fn is_configured_embedder(config: AppConfig, embedder: Embedder) -> bool {
    let name = config.embedding.backend@;
    let dim = config.embedding.dim;
    match embedder {
        Embedder::Local(model) => name == "fastembed"@ && model == local_model(dim),
        Embedder::OpenAICompat(backend) => {
            &&& name == "openai-compat"@
            &&& backend.url() == without_trailing_slashes(config.embedding.base_url@)
            &&& backend.key() == config.embedding.api_key
            &&& backend.served_model() == config.embedding.model@
            &&& backend.vector_dim() == dim
        },
        Embedder::Synthetic(synthetic) => name == "synthetic"@ && synthetic.dim == dim,
        Embedder::Mock(mock) => {
            &&& name == "mock"@
            &&& mock.dim == dim
            &&& mock.fill_value.bits == TENTH_BITS
        },
    }
}

/// Whether a name is that of an embedder.
pub open spec fn known_embedder(name: Seq<char>) -> bool {
    name == "fastembed"@ || name == "openai-compat"@ || name == "synthetic"@ || name == "mock"@
}

/// A copy of an optional text.
fn copy_key(key: &Option<String>) -> (copy: Option<String>)
    ensures
        copy == *key,
{
    match key {
        Some(text) => Some(text.clone()),
        None => None,
    }
}

/// The embedder that the settings name.
pub fn build_embedder(config: &AppConfig) -> (r: Result<Embedder, TurboError>)
    ensures
        r is Ok <==> known_embedder(config.embedding.backend@),
        r matches Ok(embedder) ==> is_configured_embedder(*config, embedder),
        r matches Err(e) ==> e is Other && e.detail() == "unknown embedding backend: '"@
            + config.embedding.backend@ + "' (valid: fastembed, openai-compat, synthetic)"@,
{
    let name = config.embedding.backend.as_str();
    let dim: usize = config.embedding.dim;
    if same(name, "fastembed") {
        Ok(Embedder::Local(LocalModel::for_dim(dim)))
    } else if same(name, "openai-compat") {
        Ok(
            Embedder::OpenAICompat(
                OpenAICompatBackend::new(
                    config.embedding.base_url.as_str(),
                    copy_key(&config.embedding.api_key),
                    config.embedding.model.as_str(),
                    dim,
                ),
            ),
        )
    } else if same(name, "synthetic") {
        Ok(Embedder::Synthetic(SyntheticEmbedder::new(dim)))
    } else if same(name, "mock") {
        Ok(Embedder::Mock(MockEmbedder::new(dim)))
    } else {
        Err(
            TurboError::Other(
                join3(
                    "unknown embedding backend: '",
                    name,
                    "' (valid: fastembed, openai-compat, synthetic)",
                ),
            ),
        )
    }
}

/// Where blobs are kept.
pub enum BlobChoice {
    /// In a directory.
    Local(LocalFsBackend),
    /// In a bucket.
    S3(String),
}

/// Whether a name is that of a blob store.
pub open spec fn known_blob(name: Seq<char>) -> bool {
    name == "local"@ || name == "s3"@
}

/// Whether `choice` is the blob store that the settings describe.
pub open spec fn is_configured_blob(config: AppConfig, choice: BlobChoice) -> bool {
    match choice {
        BlobChoice::Local(store) => config.blob.backend@ == "local"@ && store.base_dir@
            == config.blob.local_path@,
        BlobChoice::S3(bucket) => config.blob.backend@ == "s3"@ && bucket@ == config.blob.bucket@,
    }
}

/// The error for a name that is none of a blob store.
pub open spec fn unknown_blob(name: Seq<char>, e: TurboError) -> bool {
    e is Other && e.detail() == "unknown blob backend: '"@ + name + "' (valid: local, s3)"@
}

/// The blob store that the settings name.
pub fn build_blob(config: &AppConfig) -> (r: Result<BlobChoice, TurboError>)
    ensures
        r is Ok <==> known_blob(config.blob.backend@),
        r matches Ok(choice) ==> is_configured_blob(*config, choice),
        r matches Err(e) ==> unknown_blob(config.blob.backend@, e),
{
    let name = config.blob.backend.as_str();
    if same(name, "local") {
        Ok(BlobChoice::Local(LocalFsBackend::new(config.blob.local_path.as_str())))
    } else if same(name, "s3") {
        Ok(BlobChoice::S3(config.blob.bucket.clone()))
    } else {
        Err(TurboError::Other(join3("unknown blob backend: '", name, "' (valid: local, s3)")))
    }
}

/// The search mode of a name: the automatic one for every other name. A federated
/// search keeps as many results as a batch has documents.
pub open spec fn mode_of(name: Seq<char>, batch_size: usize) -> SearchMode {
    if name == "hot"@ {
        SearchMode::Hot
    } else if name == "cold"@ {
        SearchMode::Cold
    } else if name == "race"@ {
        SearchMode::Race
    } else if name == "federated"@ {
        SearchMode::Federated(batch_size)
    } else {
        SearchMode::Auto
    }
}

/// The search mode that the settings name.
pub fn search_mode(config: &AppConfig) -> (mode: SearchMode)
    ensures
        mode == mode_of(config.search.mode@, config.pipeline.batch_size),
        config.search.mode@ == "hot"@ <==> mode == SearchMode::Hot,
        config.search.mode@ == "cold"@ <==> mode == SearchMode::Cold,
        config.search.mode@ == "race"@ <==> mode == SearchMode::Race,
        config.search.mode@ == "federated"@ <==> mode is Federated,
        mode matches SearchMode::Federated(merge_k) ==> merge_k == config.pipeline.batch_size,
{
    proof {
        law_search_modes(config.search.mode@, config.pipeline.batch_size);
    }
    let name = config.search.mode.as_str();
    if same(name, "hot") {
        SearchMode::Hot
    } else if same(name, "cold") {
        SearchMode::Cold
    } else if same(name, "race") {
        SearchMode::Race
    } else if same(name, "federated") {
        SearchMode::Federated(config.pipeline.batch_size)
    } else {
        SearchMode::Auto
    }
}

/// The stores, and how the in-memory one is to be filled first, if at all: from blob
/// storage, or from the rows of the durable one.
pub struct StorePlan {
    pub blob: BlobChoice,
    pub store: HybridStore,
    pub cold: LanceDbStore,
    pub load_from_blob: bool,
    pub rebuild_from_cold: bool,
}

/// Whether `plan` is what the settings ask for: an empty in-memory store and the
/// table of the durable one, both over vectors of the configured length.
pub open spec fn is_configured_store(config: AppConfig, plan: StorePlan) -> bool {
    let dim = config.embedding.dim;
    let hot = plan.store.hot;
    &&& is_configured_blob(config, plan.blob)
    &&& hot.table() == "main"@
    &&& hot.shape() == (dim, config.pipeline.turbovec_bits)
    &&& hot.coordinates() == Some(dim)
    &&& hot.width() == config.pipeline.turbovec_bits
    &&& hot.vectors() == Map::<u64, Seq<Scalar>>::empty()
    &&& hot.known_texts() == Map::<u64, Seq<char>>::empty()
    &&& hot.total() == 0
    &&& !hot.ready()
    &&& plan.store.mode == mode_of(config.search.mode@, config.pipeline.batch_size)
    &&& plan.cold.table_name@ == "docs"@
    &&& plan.cold.dim == dim
    &&& plan.load_from_blob == (config.pipeline.load_strategy@ == "from-blob"@)
    &&& plan.rebuild_from_cold == (config.pipeline.load_strategy@ == "rebuild-from-lance"@)
}

/// The stores that the settings ask for.
pub fn build_store(config: &AppConfig) -> (r: Result<StorePlan, TurboError>)
    requires
        known_blob(config.blob.backend@) ==> valid_shape(
            config.embedding.dim as int,
            config.pipeline.turbovec_bits as int,
        ),
    ensures
        r is Ok <==> known_blob(config.blob.backend@),
        r matches Ok(plan) ==> is_configured_store(*config, plan),
        r matches Err(e) ==> unknown_blob(config.blob.backend@, e),
{
    let blob = match build_blob(config) {
        Ok(blob) => blob,
        Err(e) => {
            return Err(e);
        },
    };
    let dim: usize = config.embedding.dim;
    let hot = TurboVecStore::new_in_memory("main", dim, config.pipeline.turbovec_bits);
    Ok(
        StorePlan {
            blob,
            store: HybridStore::new(hot, search_mode(config)),
            cold: LanceDbStore::new("docs", dim),
            load_from_blob: same(config.pipeline.load_strategy.as_str(), "from-blob"),
            rebuild_from_cold: same(
                config.pipeline.load_strategy.as_str(),
                "rebuild-from-lance",
            ),
        },
    )
}

/// Settings for taking documents in lead to stores that start out empty: nothing
/// that was stored before is loaded.
pub proof fn law_ingest_starts_afresh(config: AppConfig, plan: StorePlan)
    requires
        config.pipeline.load_strategy@ == "lazy"@,
        is_configured_store(config, plan),
    ensures
        !plan.load_from_blob,
        !plan.rebuild_from_cold,
        plan.store.hot.vectors() == Map::<u64, Seq<Scalar>>::empty(),
        plan.store.hot.total() == 0,
{
    reveal_strlit("lazy");
    reveal_strlit("from-blob");
    reveal_strlit("rebuild-from-lance");
    assert("lazy"@.len() == 4 && "from-blob"@.len() == 9 && "rebuild-from-lance"@.len() == 18);
}

/// Settings that ask for the in-memory tier to be rebuilt lead to one that holds the
/// rows of the durable one: it is ready where there is a row at all, and counts as many
/// documents as there are rows.
pub proof fn law_rebuild_strategy(
    config: AppConfig,
    plan: StorePlan,
    batches: Seq<Batch>,
    after: TurboVecStore,
)
    requires
        valid_shape(config.embedding.dim as int, config.pipeline.turbovec_bits as int),
        config.pipeline.load_strategy@ == "rebuild-from-lance"@,
        is_configured_store(config, plan),
        is_rebuilt(plan.store.hot, batches, after),
        stored_docs(batches).len() <= usize::MAX,
    ensures
        plan.rebuild_from_cold,
        !plan.load_from_blob,
        stored_docs(batches).len() > 0 ==> after.ready(),
        after.total() == stored_docs(batches).len(),
        plan.store.mode == SearchMode::Auto && stored_docs(batches).len() > 0 ==> route_of(
            plan.store.mode,
            after.ready(),
        ) == Route::Hot,
{
    reveal_strlit("from-blob");
    reveal_strlit("rebuild-from-lance");
    assert("from-blob"@.len() == 9 && "rebuild-from-lance"@.len() == 18);
    law_rebuild(plan.store.hot, batches, after, config.embedding.dim);
}

/// Each search mode has one name, and every other name means the automatic one. A
/// federated search keeps as many results as a batch has documents, however many these
/// are; under any other mode the size of a batch does not matter.
pub proof fn law_search_modes(name: Seq<char>, batch_size: usize)
    ensures
        mode_of(name, batch_size) == SearchMode::Hot <==> name == "hot"@,
        mode_of(name, batch_size) == SearchMode::Cold <==> name == "cold"@,
        mode_of(name, batch_size) == SearchMode::Race <==> name == "race"@,
        mode_of(name, batch_size) == SearchMode::Federated(batch_size) <==> name == "federated"@,
        mode_of(name, batch_size) == SearchMode::Auto <==> name != "hot"@ && name != "cold"@
            && name != "race"@ && name != "federated"@,
{
    reveal_strlit("hot");
    reveal_strlit("cold");
    reveal_strlit("race");
    reveal_strlit("federated");
    assert("hot"@.len() == 3 && "cold"@.len() == 4 && "race"@.len() == 4 && "federated"@.len()
        == 9);
    assert("cold"@[0] == 'c' && "race"@[0] == 'r');
}

/// The length of an embedder's vectors.
pub open spec fn vector_length(embedder: Embedder) -> usize {
    match embedder {
        Embedder::Local(model) => match model {
            LocalModel::BgeBaseEn => 768,
            LocalModel::MxbaiLarge => 1024,
            LocalModel::BgeSmallEn => 384,
        },
        Embedder::OpenAICompat(backend) => backend.vector_dim(),
        Embedder::Synthetic(synthetic) => synthetic.dim,
        Embedder::Mock(mock) => mock.dim,
    }
}

/// A configured embedder gives vectors of the configured length. The models that run on
/// this machine are the exception: where none of them has that length, the base model
/// stands in.
pub proof fn law_embedder_has_configured_length(config: AppConfig, embedder: Embedder)
    requires
        is_configured_embedder(config, embedder),
    ensures
        embedder !is Local ==> vector_length(embedder) == config.embedding.dim,
        forall|model: LocalModel|
            embedder is Local && #[trigger] vector_length(Embedder::Local(model))
                == config.embedding.dim ==> embedder == Embedder::Local(model),
        embedder is Local && vector_length(embedder) != config.embedding.dim ==> embedder
            == Embedder::Local(LocalModel::BgeBaseEn),
{
}

/// The settings name one embedder: of two that fit them, both are of one kind, ask the
/// same endpoint with the same key for the same model, and fill with the same number.
/// Requests go to the configured address, but for slashes at its end.
pub proof fn law_one_embedder_is_configured(config: AppConfig, a: Embedder, b: Embedder)
    requires
        is_configured_embedder(config, a),
        is_configured_embedder(config, b),
    ensures
        a matches Embedder::Local(one) ==> (b matches Embedder::Local(other) && one == other),
        a matches Embedder::Synthetic(one) ==> (b matches Embedder::Synthetic(other) && one
            == other),
        a matches Embedder::Mock(one) ==> (b matches Embedder::Mock(other) && one == other),
        a matches Embedder::OpenAICompat(one) ==> {
            &&& b matches Embedder::OpenAICompat(other) && one.url() == other.url()
            &&& one.url().is_prefix_of(config.embedding.base_url@)
            &&& forall|i: int|
                one.url().len() <= i < config.embedding.base_url@.len()
                    ==> #[trigger] config.embedding.base_url@[i] == '/'
            &&& one.key() == config.embedding.api_key
            &&& one.served_model() == config.embedding.model@
        },
{
    reveal_strlit("fastembed");
    reveal_strlit("openai-compat");
    reveal_strlit("synthetic");
    reveal_strlit("mock");
    assert("fastembed"@.len() == 9 && "openai-compat"@.len() == 13 && "synthetic"@.len() == 9
        && "mock"@.len() == 4);
    assert("fastembed"@[0] == 'f' && "synthetic"@[0] == 's');
    law_only_slashes_are_cut(config.embedding.base_url@);
}

/// Blobs are kept where the settings say: in the configured directory or in the configured
/// bucket, named whole.
pub proof fn law_blobs_are_where_configured(config: AppConfig, choice: BlobChoice)
    requires
        is_configured_blob(config, choice),
    ensures
        choice is Local <==> config.blob.backend@ == "local"@,
        choice is S3 <==> config.blob.backend@ == "s3"@,
        choice matches BlobChoice::Local(store) ==> store.base_dir@ == config.blob.local_path@,
        choice matches BlobChoice::S3(bucket) ==> bucket@ == config.blob.bucket@,
{
    reveal_strlit("local");
    reveal_strlit("s3");
    assert("local"@.len() == 5 && "s3"@.len() == 2);
}

/// The tiers of a configured store fit together: both are over vectors of the configured
/// length, the in-memory one keeps the configured bits of each coordinate and holds
/// nothing yet, and it is filled first in at most one way.
pub proof fn law_tiers_fit_together(config: AppConfig, plan: StorePlan, id: u64)
    requires
        is_configured_store(config, plan),
    ensures
        plan.store.hot.coordinates() == Some(config.embedding.dim),
        plan.cold.dim == config.embedding.dim,
        plan.store.hot.width() == config.pipeline.turbovec_bits,
        plan.store.hot.shape() == (config.embedding.dim, config.pipeline.turbovec_bits),
        !plan.store.hot.vectors().contains_key(id),
        !plan.store.hot.known_texts().contains_key(id),
        plan.store.hot.total() == 0 && !plan.store.hot.ready(),
        !(plan.load_from_blob && plan.rebuild_from_cold),
        config.pipeline.load_strategy@ == "from-blob"@ <==> plan.load_from_blob,
        config.pipeline.load_strategy@ == "rebuild-from-lance"@ <==> plan.rebuild_from_cold,
        plan.store.mode == SearchMode::Auto <==> config.search.mode@ != "hot"@
            && config.search.mode@ != "cold"@ && config.search.mode@ != "race"@
            && config.search.mode@ != "federated"@,
{
    reveal_strlit("from-blob");
    reveal_strlit("rebuild-from-lance");
    assert("from-blob"@.len() == 9 && "rebuild-from-lance"@.len() == 18);
    law_search_modes(config.search.mode@, config.pipeline.batch_size);
}

/// The settings are turned down exactly where they name no embedder: a name that an embedder
/// goes by is known, and no other.
pub proof fn law_known_embedders(config: AppConfig, embedder: Embedder)
    ensures
        is_configured_embedder(config, embedder) ==> known_embedder(config.embedding.backend@),
        known_embedder(config.embedding.backend@) ==> config.embedding.backend@ == "fastembed"@
            || config.embedding.backend@ == "openai-compat"@ || config.embedding.backend@
            == "synthetic"@ || config.embedding.backend@ == "mock"@,
{
}

/// The settings are turned down exactly where they name no blob store, and the error gives
/// the name that was wrong: two different names make two different errors.
pub proof fn law_known_blob_stores(
    config: AppConfig,
    choice: BlobChoice,
    a: Seq<char>,
    b: Seq<char>,
    one: TurboError,
    other: TurboError,
)
    ensures
        is_configured_blob(config, choice) ==> known_blob(config.blob.backend@),
        known_blob(a) <==> a == "local"@ || a == "s3"@,
        unknown_blob(a, one) && unknown_blob(b, other) && one.detail() == other.detail() ==> a
            == b,
        unknown_blob(a, one) ==> one is Other,
{
    if unknown_blob(a, one) && unknown_blob(b, other) && one.detail() == other.detail() {
        let start = "unknown blob backend: '"@;
        let end = "' (valid: local, s3)"@;
        let n = start.len() as int;
        assert(one.detail().subrange(n, one.detail().len() - end.len()) =~= a);
        assert(other.detail().subrange(n, other.detail().len() - end.len()) =~= b);
    }
}

} // verus!

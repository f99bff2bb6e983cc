//! Settings, and what they are where nothing is set.

use crate::error::TurboError;
use crate::text::chars_of;
use vstd::prelude::*;

verus! {

/// All settings.
#[derive(Debug, Clone)]
pub struct AppConfig {
    pub embedding: EmbeddingConfig,
    pub blob: BlobConfig,
    pub lance: LanceConfig,
    pub pipeline: PipelineConfig,
    pub search: SearchConfig,
}

/// How texts become vectors.
#[derive(Debug, Clone)]
pub struct EmbeddingConfig {
    /// `fastembed`, `openai-compat` or `synthetic`.
    pub backend: String,
    /// The endpoint of `openai-compat`.
    pub base_url: String,
    pub api_key: Option<String>,
    pub model: String,
    pub dim: usize,
}

/// Where blobs are kept.
#[derive(Debug, Clone)]
pub struct BlobConfig {
    /// `local` or `s3`.
    pub backend: String,
    pub local_path: String,
    pub bucket: String,
}

/// Where the durable store is.
#[derive(Debug, Clone)]
pub struct LanceConfig {
    /// A directory or an `s3://` address.
    pub uri: String,
}

/// How documents are taken in.
#[derive(Debug, Clone)]
pub struct PipelineConfig {
    pub batch_size: usize,
    pub turbovec_bits: usize,
    /// `from-blob`, `rebuild-from-lance` or `lazy`.
    pub load_strategy: String,
}

/// How queries are answered.
#[derive(Debug, Clone)]
pub struct SearchConfig {
    /// `hot`, `cold`, `race`, `federated` or `auto`.
    pub mode: String,
}

impl AppConfig {
    /// Whether these are the settings that hold where nothing is set: a local
    /// model server, local directories, and the automatic search mode.
    pub open spec fn is_default(self) -> bool {
        &&& self.embedding.backend@ == "openai-compat"@
        &&& self.embedding.base_url@ == "http://localhost:11434/v1"@
        &&& self.embedding.api_key is None
        &&& self.embedding.model@ == "nomic-embed-text"@
        &&& self.embedding.dim == 768
        &&& self.blob.backend@ == "local"@
        &&& self.blob.local_path@ == "./data/blob"@
        &&& self.blob.bucket@ == "turbo-rag-dev"@
        &&& self.lance.uri@ == "./data/lance"@
        &&& self.pipeline.batch_size == 64
        &&& self.pipeline.turbovec_bits == 4
        &&& self.pipeline.load_strategy@ == "from-blob"@
        &&& self.search.mode@ == "auto"@
    }
}

impl Default for AppConfig {
    fn default() -> (config: Self)
        ensures
            config.is_default(),
    {
        AppConfig {
            embedding: EmbeddingConfig {
                backend: "openai-compat".to_string(),
                base_url: "http://localhost:11434/v1".to_string(),
                api_key: None,
                model: "nomic-embed-text".to_string(),
                dim: 768,
            },
            blob: BlobConfig {
                backend: "local".to_string(),
                local_path: "./data/blob".to_string(),
                bucket: "turbo-rag-dev".to_string(),
            },
            lance: LanceConfig { uri: "./data/lance".to_string() },
            pipeline: PipelineConfig {
                batch_size: 64,
                turbovec_bits: 4,
                load_strategy: "from-blob".to_string(),
            },
            search: SearchConfig { mode: "auto".to_string() },
        }
    }
}

/// The settings that a variable of the environment overrides, each with its section.
pub open spec fn setting_names() -> Seq<Seq<char>> {
    seq![
        "embedding.backend"@,
        "embedding.base_url"@,
        "embedding.api_key"@,
        "embedding.model"@,
        "embedding.dim"@,
        "blob.backend"@,
        "blob.local_path"@,
        "blob.bucket"@,
        "lance.uri"@,
        "pipeline.batch_size"@,
        "pipeline.turbovec_bits"@,
        "pipeline.load_strategy"@,
        "search.mode"@,
    ]
}

/// The settings that a variable of the environment overrides, each with its section.
pub fn settings() -> (names: Vec<&'static str>)
    ensures
        names@.map_values(|name: &str| name@) == setting_names(),
{
    let names: Vec<&'static str> = vec![
        "embedding.backend",
        "embedding.base_url",
        "embedding.api_key",
        "embedding.model",
        "embedding.dim",
        "blob.backend",
        "blob.local_path",
        "blob.bucket",
        "lance.uri",
        "pipeline.batch_size",
        "pipeline.turbovec_bits",
        "pipeline.load_strategy",
        "search.mode",
    ];
    proof {
        assert(names@.map_values(|name: &str| name@) =~= setting_names());
    }
    names
}

/// A character of a setting's name as the variable has it: the dot after the section
/// is an underscore, and letters are capital.
pub open spec fn variable_char(c: char) -> char {
    if c == '.' {
        '_'
    } else if 'a' <= c <= 'z' {
        ((c as u32) - 32) as char
    } else {
        c
    }
}

/// The variable that overrides a setting: `EMBEDDING_BASE_URL` for
/// `embedding.base_url`.
pub fn variable_name(setting: &str) -> (name: String)
    ensures
        name@ == setting@.map_values(|c: char| variable_char(c)),
{
    let chars = chars_of(setting);
    let mut name = String::new();
    let mut i: usize = 0;
    while i < chars.len()
        invariant
            i <= chars@.len(),
            name@.len() == i,
            forall|j: int| 0 <= j < i ==> #[trigger] name@[j] == variable_char(chars@[j]),
        decreases chars@.len() - i,
    {
        let c: char = chars[i];
        let capital: char = if c == '.' {
            '_'
        } else if 'a' <= c && c <= 'z' {
            ((c as u8) - 32) as char
        } else {
            c
        };
        name.push(capital);
        i = i + 1;
    }
    proof {
        assert(name@ =~= setting@.map_values(|c: char| variable_char(c)));
    }
    name
}

/// The settings that hold, from what the configured sources gave: an error where
/// they could not be read, the settings that they spell out, or nothing where
/// they do not spell out all of them.
pub fn load(sources: Result<Option<AppConfig>, String>) -> (r: Result<AppConfig, TurboError>)
    ensures
        match sources {
            Ok(Some(config)) => r == Ok::<AppConfig, TurboError>(config),
            Ok(None) => r matches Ok(config) && config.is_default(),
            Err(reason) => r == Err::<AppConfig, TurboError>(TurboError::Other(reason)),
        },
{
    match sources {
        Ok(Some(config)) => Ok(config),
        Ok(None) => Ok(AppConfig::default()),
        Err(reason) => Err(TurboError::Other(reason)),
    }
}

/// The settings that hold where unreadable sources are no obstacle.
pub fn load_or_default(sources: Result<Option<AppConfig>, String>) -> (config: AppConfig)
    ensures
        match sources {
            Ok(Some(set)) => config == set,
            _ => config.is_default(),
        },
{
    match load(sources) {
        Ok(config) => config,
        Err(_) => AppConfig::default(),
    }
}

/// The variable of a setting has one character for each of the name's: an underscore for
/// a dot, the capital for a small letter, and the same one for every other. So it holds
/// neither a dot nor a small letter.
pub proof fn law_variable_of_setting(setting: Seq<char>, i: int)
    requires
        0 <= i < setting.len(),
    ensures
        ({
            let name = setting.map_values(|c: char| variable_char(c));
            let c = setting[i];
            &&& name.len() == setting.len()
            &&& name[i] != '.' && !('a' <= name[i] <= 'z')
            &&& c == '.' ==> name[i] == '_'
            &&& 'a' <= c <= 'z' ==> 'A' <= name[i] <= 'Z' && (name[i] as int) - ('A' as int) == (
            c as int) - ('a' as int)
            &&& c != '.' && !('a' <= c <= 'z') ==> name[i] == c
        }),
{
}

} // verus!

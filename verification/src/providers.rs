//! Which completion and embedding providers a configuration asks for.

use vstd::prelude::*;
use crate::text::chars_of;
use crate::text::is_text;

verus! {

/// Configuration of one completion provider.
#[derive(Debug)]
pub struct ProviderConfig {
    pub name: String,
    pub model: String,
    pub api_key: Option<String>,
    pub base_url: Option<String>,
    pub features: Vec<String>,
}

/// Configuration of the embedding model.
#[derive(Debug)]
pub struct EmbeddingConfig {
    pub model: String,
    pub provider: String,
    pub api_key: Option<String>,
}

/// The providers known by name.
#[derive(Debug, Clone, Copy, PartialEq, Eq, Structural)]
pub enum ProviderKind {
    OpenAi,
    Anthropic,
    Cohere,
    Ollama,
    Deepseek,
    Gemini,
}

/// The provider that a name stands for.
pub open spec fn kind_named(name: Seq<char>) -> Option<ProviderKind> {
    if name == "openai"@ {
        Some(ProviderKind::OpenAi)
    } else if name == "anthropic"@ {
        Some(ProviderKind::Anthropic)
    } else if name == "cohere"@ {
        Some(ProviderKind::Cohere)
    } else if name == "ollama"@ {
        Some(ProviderKind::Ollama)
    } else if name == "deepseek"@ {
        Some(ProviderKind::Deepseek)
    } else if name == "gemini"@ {
        Some(ProviderKind::Gemini)
    } else {
        None
    }
}

/// The embedding provider that a name stands for: only two of the
/// providers offer embeddings.
pub open spec fn embedding_kind_named(name: Seq<char>) -> Option<ProviderKind> {
    if name == "openai"@ {
        Some(ProviderKind::OpenAi)
    } else if name == "cohere"@ {
        Some(ProviderKind::Cohere)
    } else {
        None
    }
}

/// How to reach a provider.
#[derive(Debug)]
pub enum ProviderPlan {
    /// A hosted provider, reached with an API key.
    Keyed { kind: ProviderKind, api_key: String, model: String },
    /// A local provider, reached at a URL.
    Local { base_url: String, model: String },
}

/// Why no provider can be made.
#[derive(Debug)]
pub enum ProviderError {
    /// The name stands for no provider.
    UnknownProvider(String),
    /// The name stands for no embedding provider.
    UnknownEmbeddingProvider(String),
}

impl ProviderError {
    /// The text of the error.
    pub fn message(&self) -> (out: String)
        ensures
            out@ == match self {
                ProviderError::UnknownProvider(name) => "Unknown provider: "@ + name@,
                ProviderError::UnknownEmbeddingProvider(name) => "Unknown embedding provider: "@
                    + name@,
            },
    {
        match self {
            ProviderError::UnknownProvider(name) => {
                let mut out: String = String::from_str("Unknown provider: ");
                out.append(name.as_str());
                out
            },
            ProviderError::UnknownEmbeddingProvider(name) => {
                let mut out: String = String::from_str("Unknown embedding provider: ");
                out.append(name.as_str());
                out
            },
        }
    }
}

/// The provider that a name stands for.
pub fn provider_kind(name: &str) -> (out: Option<ProviderKind>)
    ensures
        out == kind_named(name@),
{
    let n = chars_of(name);
    if is_text(&n, "openai") {
        Some(ProviderKind::OpenAi)
    } else if is_text(&n, "anthropic") {
        Some(ProviderKind::Anthropic)
    } else if is_text(&n, "cohere") {
        Some(ProviderKind::Cohere)
    } else if is_text(&n, "ollama") {
        Some(ProviderKind::Ollama)
    } else if is_text(&n, "deepseek") {
        Some(ProviderKind::Deepseek)
    } else if is_text(&n, "gemini") {
        Some(ProviderKind::Gemini)
    } else {
        None
    }
}

/// Whether a configuration can be planned without failing for want of a
/// key: a hosted provider needs its API key.
pub open spec fn has_needed_key(config: &ProviderConfig) -> bool {
    match kind_named(config.name@) {
        Some(ProviderKind::Ollama) => true,
        Some(_) => config.api_key.is_some(),
        None => true,
    }
}

/// How to reach the provider of a configuration.
///
/// The local provider is reached at its configured URL, or at
/// `http://localhost:11434` where none is configured.
pub fn plan_provider(config: &ProviderConfig) -> (out: Result<ProviderPlan, ProviderError>)
    requires
        has_needed_key(config),
    ensures
        match kind_named(config.name@) {
            None => out matches Err(ProviderError::UnknownProvider(name)) && name@ == config.name@,
            Some(ProviderKind::Ollama) => out matches Ok(ProviderPlan::Local { base_url, model })
                && model@ == config.model@ && base_url@ == match config.base_url {
                Some(url) => url@,
                None => "http://localhost:11434"@,
            },
            Some(kind) => out matches Ok(ProviderPlan::Keyed { kind: k, api_key, model }) && k
                == kind && model@ == config.model@ && api_key@ == config.api_key.unwrap()@,
        },
{
    match provider_kind(config.name.as_str()) {
        None => Err(ProviderError::UnknownProvider(config.name.clone())),
        Some(ProviderKind::Ollama) => {
            let base_url: String = match &config.base_url {
                Some(url) => url.clone(),
                None => "http://localhost:11434".to_owned(),
            };
            Ok(ProviderPlan::Local { base_url, model: config.model.clone() })
        },
        Some(kind) => {
            let api_key: String = match &config.api_key {
                Some(key) => key.clone(),
                None => String::new(),
            };
            Ok(ProviderPlan::Keyed { kind, api_key, model: config.model.clone() })
        },
    }
}

/// Whether a configuration asks for an embedding model: it names one.
pub fn wants_embeddings(config: &EmbeddingConfig) -> (out: bool)
    ensures
        out == (config.model@.len() > 0),
{
    config.model.as_str().unicode_len() > 0
}

/// How to reach the embedding provider of a configuration.
pub fn plan_embeddings(config: &EmbeddingConfig) -> (out: Result<ProviderPlan, ProviderError>)
    requires
        embedding_kind_named(config.provider@).is_some() ==> config.api_key.is_some(),
    ensures
        match embedding_kind_named(config.provider@) {
            None => out matches Err(ProviderError::UnknownEmbeddingProvider(name)) && name@
                == config.provider@,
            Some(kind) => out matches Ok(ProviderPlan::Keyed { kind: k, api_key, model }) && k
                == kind && model@ == config.model@ && api_key@ == config.api_key.unwrap()@,
        },
{
    let n = chars_of(config.provider.as_str());
    let kind: ProviderKind = if is_text(&n, "openai") {
        ProviderKind::OpenAi
    } else if is_text(&n, "cohere") {
        ProviderKind::Cohere
    } else {
        return Err(ProviderError::UnknownEmbeddingProvider(config.provider.clone()));
    };
    let api_key: String = match &config.api_key {
        Some(key) => key.clone(),
        None => String::new(),
    };
    Ok(ProviderPlan::Keyed { kind, api_key, model: config.model.clone() })
}

} // verus!

//! Dense embedding support via an OpenAI-compatible `/v1/embeddings` HTTP endpoint: the
//! query/document prefixes, the configuration, and the errors. The HTTP exchange and the
//! vector arithmetic (floating point) live outside this library.
use vstd::prelude::*;

use crate::config::SearchConfig;
use crate::text::{push_str, to_string};

pub mod download;
pub mod embed;
pub mod model;

verus! {

/// Task type for prefix injection.
#[derive(Debug, Clone, Copy, PartialEq, Eq, Structural)]
pub enum TaskType {
    /// Query — prefixed with `"query: "`
    RetrievalQuery,
    /// Document — prefixed with `"passage: "`
    RetrievalDocument,
}

/// `query: ` or `passage: `.
pub open spec fn task_prefix(task: TaskType) -> Seq<char> {
    match task {
        TaskType::RetrievalQuery => seq!['q', 'u', 'e', 'r', 'y', ':', ' '],
        TaskType::RetrievalDocument => seq!['p', 'a', 's', 's', 'a', 'g', 'e', ':', ' '],
    }
}

/// Inject task-specific prefix into text: the prefix, then the title and a newline when
/// there is one, then the content.
pub fn apply_prefix(content: &str, title: Option<&str>, task: TaskType) -> (r: String)
    ensures
        r@ == task_prefix(task) + match title {
            Some(t) => t@ + seq!['\n'],
            None => seq![],
        } + content@,
{
    let mut s = match task {
        TaskType::RetrievalQuery => to_string("query: "),
        TaskType::RetrievalDocument => to_string("passage: "),
    };
    proof {
        reveal_strlit("query: ");
        reveal_strlit("passage: ");
    }
    let ghost head = s@;
    match title {
        Some(t) => {
            push_str(&mut s, t);
            s.push('\n');
        },
        None => {},
    }
    push_str(&mut s, content);
    proof {
        assert(head =~= task_prefix(task));
        assert(s@ =~= task_prefix(task) + match title {
            Some(t) => t@ + seq!['\n'],
            None => seq![],
        } + content@);
    }
    s
}

/// Configuration for embedding generation.
pub struct EmbeddingConfig {
    /// Model identifier sent as `"model"` in the request body (e.g. "qwen3-embedding:0.6b").
    pub model_id: String,
    /// Output dimension ceiling (for Matryoshka truncation). Values at or
    /// above a model's native output length are a no-op — truncation only
    /// shrinks, never pads.
    pub embedding_dim: usize,
    /// Base URL for an OpenAI-compatible embeddings endpoint (e.g.
    /// "https://host/v1"). `/embeddings` is appended to build the request
    /// URL. `None` means dense embeddings are unavailable.
    pub api_base: Option<String>,
    /// Optional bearer token for the embedding API.
    pub api_key: Option<String>,
}

impl Default for EmbeddingConfig {
    fn default() -> (r: Self)
        ensures
            r.model_id@.len() == 0,
            r.embedding_dim == 4096,
            r.api_base is None,
            r.api_key is None,
    {
        EmbeddingConfig {
            model_id: String::new(),
            embedding_dim: 4096,
            api_base: None,
            api_key: None,
        }
    }
}

impl EmbeddingConfig {
    /// Build from a [`SearchConfig`]. Returns `None` when no embedding API
    /// base URL is configured — dense embeddings are simply unavailable,
    /// not an error.
    pub fn from_search_config(sc: &SearchConfig) -> (r: Option<Self>)
        ensures
            r is Some <==> sc.embedding_api_base is Some,
            r matches Some(c) ==> {
                &&& c.model_id == sc.model_id
                &&& c.embedding_dim == sc.embedding_dim
                &&& c.api_base == sc.embedding_api_base
                &&& c.api_key == sc.embedding_api_key
            },
    {
        let api_base = match &sc.embedding_api_base {
            Some(b) => b.clone(),
            None => return None,
        };
        Some(
            EmbeddingConfig {
                model_id: sc.model_id.clone(),
                embedding_dim: sc.embedding_dim as usize,
                api_base: Some(api_base),
                api_key: match &sc.embedding_api_key {
                    Some(k) => Some(k.clone()),
                    None => None,
                },
            },
        )
    }
}

/// Error type for embedding operations.
pub enum EmbedError {
    /// The embedder isn't configured with an API base URL.
    Init(String),
    /// The HTTP request failed, or the server returned an error/unparseable response.
    Embed(String),
}

impl EmbedError {
    /// The error's message, as it is displayed.
    pub fn message(&self) -> (r: String)
        ensures
            r@ == match self {
                EmbedError::Init(m) => seq![
                    'E', 'm', 'b', 'e', 'd', 'd', 'i', 'n', 'g', ' ', 'i', 'n', 'i', 't', ' ', 'e',
                    'r', 'r', 'o', 'r', ':', ' ',
                ] + m@,
                EmbedError::Embed(m) => seq![
                    'E', 'm', 'b', 'e', 'd', 'd', 'i', 'n', 'g', ' ', 'e', 'r', 'r', 'o', 'r', ':',
                    ' ',
                ] + m@,
            },
    {
        proof {
            reveal_strlit("Embedding init error: ");
            reveal_strlit("Embedding error: ");
        }
        match self {
            EmbedError::Init(m) => {
                let mut s = to_string("Embedding init error: ");
                push_str(&mut s, m.as_str());
                s
            },
            EmbedError::Embed(m) => {
                let mut s = to_string("Embedding error: ");
                push_str(&mut s, m.as_str());
                s
            },
        }
    }
}


/// Truncate an embedding to its first `dim` entries (Matryoshka Representation Learning);
/// one no longer than `dim` is returned whole.
pub fn truncate<T>(embedding: Vec<T>, dim: usize) -> (r: Vec<T>)
    ensures
        r@ == if dim >= embedding@.len() {
            embedding@
        } else {
            embedding@.take(dim as int)
        },
{
    if dim >= embedding.len() {
        embedding
    } else {
        let mut embedding = embedding;
        embedding.truncate(dim);
        embedding
    }
}

} // verus!

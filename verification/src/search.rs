//! Search requests, modes and results: which scoring paths a search runs, how it degrades
//! when vectors or the embedding model are missing, and how a ranked chunk is shown. The
//! scores themselves (BM25, cosine similarity, rank fusion) are floating point and live
//! outside this library.
use vstd::prelude::*;

use crate::error::{internal_error, invalid_params, CapabilityError, INTERNAL_ERROR, INVALID_PARAMS};
use crate::config::Config;
use crate::storage::{ChunkEntry, StalenessDiff};
use crate::text::{
    chars_of, join_with, lemma_trim_sub, push_str, string_of_range, strings_view, to_string, trim,
    trim_range, ws_pred,
};

verus! {

/// Which scoring paths to run during search.
#[derive(Debug, Clone, Copy, PartialEq, Eq, Structural)]
pub enum SearchMode {
    /// Run dense (cosine) + sparse (BM25) and fuse via RRF.
    Hybrid,
    /// Dense (cosine similarity) only.
    Dense,
    /// Sparse (BM25) only.
    Sparse,
}

impl Default for SearchMode {
    fn default() -> (r: Self)
        ensures
            r == SearchMode::Hybrid,
    {
        SearchMode::Hybrid
    }
}

/// The mode uses the dense (cosine) side.
pub open spec fn uses_dense(mode: SearchMode) -> bool {
    mode == SearchMode::Hybrid || mode == SearchMode::Dense
}

/// The mode uses the sparse (BM25) side.
pub open spec fn uses_sparse(mode: SearchMode) -> bool {
    mode == SearchMode::Hybrid || mode == SearchMode::Sparse
}

/// The mode a search runs in when the dense side is, or is not, available: a mode that
/// needs it falls back to sparse without it.
pub open spec fn degraded(mode: SearchMode, dense_available: bool) -> SearchMode {
    if uses_dense(mode) && !dense_available {
        SearchMode::Sparse
    } else {
        mode
    }
}

/// A search always reaches a mode it can run: after falling back for missing vectors and
/// for a query that could not be embedded, the mode uses the dense side only when both the
/// vectors and the query vector are there, it always has a side to score with, and it
/// differs from the requested mode only by being sparse.
pub proof fn law_search_mode_is_runnable(mode: SearchMode, has_vectors: bool, has_query_vector: bool)
    ensures
        ({
            let m = degraded(degraded(mode, has_vectors), has_query_vector);
            &&& uses_dense(m) ==> has_vectors && has_query_vector
            &&& uses_dense(m) || uses_sparse(m)
            &&& m == mode || m == SearchMode::Sparse
            &&& has_vectors && has_query_vector ==> m == mode
        }),
{
}

impl SearchMode {
    /// Does this mode require dense vectors?
    pub fn needs_dense(&self) -> (r: bool)
        ensures
            r == (*self == SearchMode::Hybrid || *self == SearchMode::Dense),
    {
        match self {
            SearchMode::Hybrid | SearchMode::Dense => true,
            SearchMode::Sparse => false,
        }
    }

    /// Does this mode require BM25?
    pub fn needs_sparse(&self) -> (r: bool)
        ensures
            r == (*self == SearchMode::Hybrid || *self == SearchMode::Sparse),
    {
        match self {
            SearchMode::Hybrid | SearchMode::Sparse => true,
            SearchMode::Dense => false,
        }
    }

    /// The mode a search runs in once it knows whether usable vectors are stored (one per
    /// chunk): a mode that needs them falls back to sparse.
    pub fn with_vectors(&self, n_vectors: usize, n_chunks: usize) -> (r: SearchMode)
        ensures
            r == degraded(*self, n_vectors > 0 && n_vectors == n_chunks),
    {
        let has_vectors = n_vectors > 0 && n_vectors == n_chunks;
        match (*self, has_vectors) {
            (SearchMode::Dense, false) | (SearchMode::Hybrid, false) => SearchMode::Sparse,
            (mode, _) => mode,
        }
    }

    /// The mode a search runs in once it knows whether the query could be embedded: a mode
    /// that needs the dense side falls back to sparse without it.
    pub fn with_query_vector(&self, has_dense: bool) -> (r: SearchMode)
        ensures
            r == degraded(*self, has_dense),
    {
        match (*self, has_dense) {
            (SearchMode::Dense, false) | (SearchMode::Hybrid, false) => SearchMode::Sparse,
            (mode, _) => mode,
        }
    }
}

/// A preview of `text`: the text trimmed when it is at most `max_len` bytes long, else its
/// first `max_len` characters trimmed.
pub open spec fn preview_of(text: Seq<char>, max_len: int) -> Seq<char> {
    if vstd::utf8::encode_utf8(text).len() <= max_len {
        trim(text)
    } else {
        trim(text.take(if max_len < text.len() { max_len } else { text.len() as int }))
    }
}

/// Extract a preview of ~`max_len` characters from the beginning of the text.
pub fn extract_preview(text: &str, max_len: usize) -> (r: String)
    ensures
        r@ == preview_of(text@, max_len as int),
{
    let v = chars_of(text);
    let k = if text.as_bytes().len() <= max_len {
        v.len()
    } else if max_len < v.len() {
        max_len
    } else {
        v.len()
    };
    let (a, b) = trim_range(&v, 0, k, None);
    proof {
        lemma_trim_sub(v@, 0, k as int, ws_pred());
        assert(v@.subrange(0, v@.len() as int) =~= v@);
        assert(v@.subrange(0, k as int) =~= v@.take(k as int));
    }
    string_of_range(&v, a, b)
}

/// What a search shows of a ranked chunk, besides its score.
pub struct ChunkPresentation {
    /// The chunk ID
    pub id: String,
    /// Source file path
    pub source_file: String,
    /// Optional heading context
    pub heading: Option<String>,
    /// Preview of the matching text
    pub preview: String,
}

/// The heading shown for a chunk: its heading path joined with ` > `, else its heading.
pub open spec fn heading_label(entry: ChunkEntry) -> Option<Seq<char>> {
    if entry.heading_path@.len() == 0 {
        match entry.heading {
            Some(h) => Some(h@),
            None => None,
        }
    } else {
        Some(join_with(strings_view(entry.heading_path@), seq![' ', '>', ' ']))
    }
}

/// How a ranked chunk is shown: its id and file, its heading label, and a preview of up to
/// 200 characters of its text.
pub fn present_chunk(entry: &ChunkEntry, text: &str) -> (r: ChunkPresentation)
    ensures
        r.id@ == entry.id@,
        r.source_file@ == entry.source_file@,
        match r.heading {
            Some(h) => heading_label(*entry) == Some(h@),
            None => heading_label(*entry) is None,
        },
        r.preview@ == preview_of(text@, 200),
{
    let preview = extract_preview(text, 200);
    let heading = if entry.heading_path.len() == 0 {
        match &entry.heading {
            Some(h) => Some(h.clone()),
            None => None,
        }
    } else {
        let mut s = String::new();
        let ghost ws = strings_view(entry.heading_path@);
        let mut k: usize = 0;
        while k < entry.heading_path.len()
            invariant
                k <= entry.heading_path@.len(),
                ws == strings_view(entry.heading_path@),
                s@ == join_with(ws.take(k as int), seq![' ', '>', ' ']),
            decreases entry.heading_path@.len() - k,
        {
            let ghost before = s@;
            if k > 0 {
                push_str(&mut s, " > ");
                proof {
                    reveal_strlit(" > ");
                }
            }
            push_str(&mut s, entry.heading_path[k].as_str());
            proof {
                let t = ws.take(k + 1);
                assert(t.drop_last() =~= ws.take(k as int));
                assert(t.last() == entry.heading_path@[k as int]@);
                if k == 0 {
                    assert(t.len() == 1);
                    assert(s@ =~= t[0]);
                } else {
                    assert(s@ =~= before + seq![' ', '>', ' '] + t.last());
                }
            }
            k += 1;
        }
        assert(ws.take(k as int) =~= ws);
        Some(s)
    };
    ChunkPresentation {
        id: entry.id.clone(),
        source_file: entry.source_file.clone(),
        heading,
        preview,
    }
}

// ---------------------------------------------------------------------------
// Errors
// ---------------------------------------------------------------------------

/// Errors returned by search operations
pub enum SearchError {
    IndexNotFound(String),
    Storage(String),
    Chunking(String),
    Bm25(String),
    Other(String),
}

pub open spec fn search_error_message(e: SearchError) -> Seq<char> {
    match e {
        SearchError::IndexNotFound(p) => seq![
            'i', 'n', 'd', 'e', 'x', ' ', 'n', 'o', 't', ' ', 'f', 'o', 'u', 'n', 'd', ' ', 'a', 't',
            ':', ' ',
        ] + p@,
        SearchError::Storage(m) => seq!['s', 't', 'o', 'r', 'a', 'g', 'e', ' ', 'e', 'r', 'r', 'o', 'r', ':', ' '] + m@,
        SearchError::Chunking(m) => seq![
            'c', 'h', 'u', 'n', 'k', 'i', 'n', 'g', ' ', 'e', 'r', 'r', 'o', 'r', ':', ' ',
        ] + m@,
        SearchError::Bm25(m) => seq!['B', 'M', '2', '5', ' ', 'e', 'r', 'r', 'o', 'r', ':', ' '] + m@,
        SearchError::Other(m) => m@,
    }
}

impl SearchError {
    /// The error's message, as it is displayed.
    pub fn message(&self) -> (r: String)
        ensures
            r@ == search_error_message(*self),
    {
        proof {
            reveal_strlit("index not found at: ");
            reveal_strlit("storage error: ");
            reveal_strlit("chunking error: ");
            reveal_strlit("BM25 error: ");
        }
        let (head, m) = match self {
            SearchError::IndexNotFound(p) => ("index not found at: ", p),
            SearchError::Storage(m) => ("storage error: ", m),
            SearchError::Chunking(m) => ("chunking error: ", m),
            SearchError::Bm25(m) => ("BM25 error: ", m),
            SearchError::Other(m) => ("", m),
        };
        proof {
            reveal_strlit("");
        }
        let mut s = to_string(head);
        push_str(&mut s, m.as_str());
        assert(s@ =~= search_error_message(*self));
        s
    }

    /// The JSON-RPC error that reports this error: a missing index is an invalid parameter,
    /// anything else an internal error.
    pub fn to_capability_error(&self) -> (r: CapabilityError)
        ensures
            r.code == if self is IndexNotFound {
                INVALID_PARAMS
            } else {
                INTERNAL_ERROR
            },
            r.message@ == match *self {
                SearchError::IndexNotFound(p) => seq![
                    'S', 'e', 'a', 'r', 'c', 'h', ' ', 'i', 'n', 'd', 'e', 'x', ' ', 'n', 'o', 't', ' ',
                    'f', 'o', 'u', 'n', 'd', ' ', 'a', 't', ':', ' ',
                ] + p@,
                SearchError::Storage(m) => seq![
                    'S', 't', 'o', 'r', 'a', 'g', 'e', ' ', 'e', 'r', 'r', 'o', 'r', ':', ' ',
                ] + m@,
                SearchError::Chunking(m) => seq![
                    'C', 'h', 'u', 'n', 'k', 'i', 'n', 'g', ' ', 'e', 'r', 'r', 'o', 'r', ':', ' ',
                ] + m@,
                SearchError::Bm25(m) => seq!['B', 'M', '2', '5', ' ', 'e', 'r', 'r', 'o', 'r', ':', ' '] + m@,
                SearchError::Other(m) => m@,
            },
    {
        proof {
            reveal_strlit("Search index not found at: ");
            reveal_strlit("Storage error: ");
            reveal_strlit("Chunking error: ");
            reveal_strlit("BM25 error: ");
            reveal_strlit("");
        }
        let (head, m, code) = match self {
            SearchError::IndexNotFound(p) => ("Search index not found at: ", p, INVALID_PARAMS),
            SearchError::Storage(m) => ("Storage error: ", m, INTERNAL_ERROR),
            SearchError::Chunking(m) => ("Chunking error: ", m, INTERNAL_ERROR),
            SearchError::Bm25(m) => ("BM25 error: ", m, INTERNAL_ERROR),
            SearchError::Other(m) => ("", m, INTERNAL_ERROR),
        };
        let mut s = to_string(head);
        push_str(&mut s, m.as_str());
        CapabilityError { code, message: s }
    }
}

// ---------------------------------------------------------------------------
// Requests and responses
// ---------------------------------------------------------------------------

/// Parameters for the index operation
pub struct IndexRequest {
    /// Path to vault (CLI only - not used in HTTP/MCP)
    pub vault_path: Option<String>,
    /// Force a full reindex even if the index appears up-to-date
    pub reindex: Option<bool>,
    /// Override the embedding model ID (e.g., "google/embedding-gemma-300m")
    pub model: Option<String>,
    /// Override the embedding dimension
    pub dim: Option<u32>,
}

/// Response from the index operation
pub struct IndexResponse {
    /// Number of files indexed
    pub files_indexed: usize,
    /// Number of chunks produced
    pub chunks_produced: usize,
    /// Whether embeddings were computed
    pub has_embeddings: bool,
    /// Overall content hash
    pub content_hash: String,
    /// Duration of the index build in milliseconds
    pub duration_ms: u128,
}

/// Parameters for the search operation
pub struct SearchRequest {
    /// Path to vault (CLI only - not used in HTTP/MCP)
    pub vault_path: Option<String>,
    /// Search query string
    pub query: String,
    /// Maximum number of results (default 50)
    pub limit: Option<usize>,
    /// Search mode: hybrid, dense, or sparse (default hybrid)
    pub mode: Option<SearchMode>,
    /// Skip staleness check and reindexing
    pub no_reindex: Option<bool>,
}

/// Build summary returned by the index builder.
pub struct BuildSummary {
    /// Number of files indexed
    pub files_indexed: usize,
    /// Number of chunks produced
    pub chunks_produced: usize,
    /// Whether embeddings were computed
    pub has_embeddings: bool,
    /// Overall content hash
    pub content_hash: String,
}

impl BuildSummary {
    /// The response to an index request that produced this summary in `duration_ms`.
    pub fn into_response(self, duration_ms: u128) -> (r: IndexResponse)
        ensures
            r.files_indexed == self.files_indexed,
            r.chunks_produced == self.chunks_produced,
            r.has_embeddings == self.has_embeddings,
            r.content_hash == self.content_hash,
            r.duration_ms == duration_ms,
    {
        IndexResponse {
            files_indexed: self.files_indexed,
            chunks_produced: self.chunks_produced,
            has_embeddings: self.has_embeddings,
            content_hash: self.content_hash,
            duration_ms,
        }
    }
}


/// What a search does about the index before it runs.
#[derive(Debug, Clone, Copy, PartialEq, Eq, Structural)]
pub enum Freshen {
    /// The index is current.
    UpToDate,
    /// The index is stale: rebuild it first.
    Rebuild,
    /// The index is stale but rebuilding was turned off: search it as it is.
    UseStale,
}

/// Decides what a search does about a stale index.
pub fn freshen(diff: &StalenessDiff, no_reindex: bool) -> (r: Freshen)
    ensures
        *diff is UpToDate ==> r == Freshen::UpToDate,
        !(*diff is UpToDate) && !no_reindex ==> r == Freshen::Rebuild,
        !(*diff is UpToDate) && no_reindex ==> r == Freshen::UseStale,
{
    match diff {
        StalenessDiff::UpToDate => Freshen::UpToDate,
        _ => if no_reindex {
            Freshen::UseStale
        } else {
            Freshen::Rebuild
        },
    }
}

pub open spec fn mode_name_spec(mode: SearchMode) -> Seq<char> {
    match mode {
        SearchMode::Hybrid => seq!['h', 'y', 'b', 'r', 'i', 'd'],
        SearchMode::Dense => seq!['d', 'e', 'n', 's', 'e'],
        SearchMode::Sparse => seq!['s', 'p', 'a', 'r', 's', 'e'],
    }
}

/// The name a response gives the mode a search ran in.
pub fn mode_name(mode: SearchMode) -> (r: String)
    ensures
        r@ == mode_name_spec(mode),
{
    proof {
        reveal_strlit("hybrid");
        reveal_strlit("dense");
        reveal_strlit("sparse");
    }
    let r = match mode {
        SearchMode::Hybrid => to_string("hybrid"),
        SearchMode::Dense => to_string("dense"),
        SearchMode::Sparse => to_string("sparse"),
    };
    assert(r@ =~= mode_name_spec(mode));
    r
}

/// The configuration an index request builds with: the model and dimension overridden when
/// given.
pub fn apply_overrides(config: &mut Config, model_override: Option<String>, dim_override: Option<u32>)
    ensures
        final(config).exclude_paths == old(config).exclude_paths,
        final(config).daily_note_patterns == old(config).daily_note_patterns,
        final(config).search.model_id == match model_override {
            Some(m) => m,
            None => old(config).search.model_id,
        },
        final(config).search.embedding_dim == match dim_override {
            Some(d) => d,
            None => old(config).search.embedding_dim,
        },
        final(config).search.max_seq_tokens == old(config).search.max_seq_tokens,
        final(config).search.chunk_overlap_tokens == old(config).search.chunk_overlap_tokens,
        final(config).search.min_chunk_tokens == old(config).search.min_chunk_tokens,
        final(config).search.merge_threshold == old(config).search.merge_threshold,
        final(config).search.max_results == old(config).search.max_results,
        final(config).search.cache_dir == old(config).search.cache_dir,
        final(config).search.exclude_headings == old(config).search.exclude_headings,
        final(config).search.model_revision == old(config).search.model_revision,
        final(config).search.dense_weights == old(config).search.dense_weights,
        final(config).search.sparse_weights == old(config).search.sparse_weights,
        final(config).search.embedding_api_base == old(config).search.embedding_api_base,
        final(config).search.embedding_api_key == old(config).search.embedding_api_key,
{
    if let Some(model) = model_override {
        config.search.model_id = model;
    }
    if let Some(dim) = dim_override {
        config.search.embedding_dim = dim;
    }
}


/// How a search scores its chunks once its mode and inputs are known.
#[derive(Debug, Clone, Copy, PartialEq, Eq, Structural)]
pub enum ScorePlan {
    /// Cosine similarity over the `k` best dense candidates, alone.
    Dense { k: usize },
    /// BM25 alone.
    Sparse,
    /// Cosine similarity over the `k` best dense candidates fused with BM25.
    Hybrid { k: usize },
}

/// The plan for `mode` given whether a query vector and a BM25 index are at hand: dense
/// scoring takes `max_results` candidates alone and twice that many when fused; `None` when
/// the mode needs an input that is missing.
pub open spec fn score_plan_of(
    mode: SearchMode,
    has_query_vector: bool,
    has_sparse: bool,
    max_results: int,
) -> Option<ScorePlan> {
    match mode {
        SearchMode::Dense => if has_query_vector {
            Some(ScorePlan::Dense { k: max_results as usize })
        } else {
            None
        },
        SearchMode::Sparse => if has_sparse {
            Some(ScorePlan::Sparse)
        } else {
            None
        },
        SearchMode::Hybrid => if has_query_vector && has_sparse {
            Some(ScorePlan::Hybrid { k: (2 * max_results) as usize })
        } else {
            None
        },
    }
}

/// Picks how to score: the inputs that the mode needs must be there, else the search state
/// is inconsistent (`None`).
pub fn score_plan(mode: SearchMode, has_query_vector: bool, has_sparse: bool, max_results: usize) -> (r:
    Option<ScorePlan>)
    requires
        mode == SearchMode::Hybrid ==> 2 * max_results <= usize::MAX,
    ensures
        r == score_plan_of(mode, has_query_vector, has_sparse, max_results as int),
{
    match mode {
        SearchMode::Dense => if has_query_vector {
            Some(ScorePlan::Dense { k: max_results })
        } else {
            None
        },
        SearchMode::Sparse => if has_sparse {
            Some(ScorePlan::Sparse)
        } else {
            None
        },
        SearchMode::Hybrid => if has_query_vector && has_sparse {
            Some(ScorePlan::Hybrid { k: 2 * max_results })
        } else {
            None
        },
    }
}

/// A search whose mode fell back as `with_vectors` and `with_query_vector` make it fall
/// back, and that builds the BM25 index exactly when that mode uses it, always has a plan,
/// and the plan scores the way the mode names.
pub proof fn law_score_plan_found(mode: SearchMode, has_vectors: bool, has_query_vector: bool, max_results: int)
    requires
        0 <= 2 * max_results <= usize::MAX,
    ensures
        ({
            let m = degraded(degraded(mode, has_vectors), has_query_vector);
            let p = score_plan_of(m, has_query_vector, uses_sparse(m), max_results);
            &&& p is Some
            &&& m == SearchMode::Sparse <==> p == Some(ScorePlan::Sparse)
            &&& m == SearchMode::Dense <==> p == Some(ScorePlan::Dense { k: max_results as usize })
            &&& m == SearchMode::Hybrid <==> p == Some(ScorePlan::Hybrid { k: (2 * max_results) as usize })
        }),
{
}

} // verus!

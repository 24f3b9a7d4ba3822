//! The search index's manifest: what was indexed, with which settings, and how the files on
//! disk differ from it.
use vstd::prelude::*;

use crate::config::{opt_view, Config};
use crate::date_utils::unix_now_secs;
use crate::text::{
    chars_eq, chars_of, lemma_lex_irrefl, lemma_lex_total, lemma_lex_trans, lex_less, lex_lt, padded, push_padded,
    push_str, string_of_range,
    strings_view, to_string,
};

verus! {

/// Current manifest format version. Bumped from 2 → 3 because
/// IndexBuilder::build now writes vault-relative Chunk.source_file/id
/// values instead of absolute paths; old v2 manifests may
/// contain absolute-path chunk entries for files that haven't changed
/// since upgrade, so they must be treated as stale and rebuilt.
pub const INDEX_FORMAT_VERSION: u32 = 3;

// ---------------------------------------------------------------------------
// Manifest types
// ---------------------------------------------------------------------------

/// Snapshot of chunking parameters captured at index time, so we can detect
/// when the user changes config and needs a full rebuild.
#[derive(Debug, Clone, Copy, PartialEq, Eq, Structural)]
pub struct ChunkConfigSnapshot {
    pub max_tokens: usize,
    pub overlap_tokens: usize,
    pub min_chunk_size: usize,
    pub merge_threshold: usize,
}

/// Per-file metadata stored in the manifest.
pub struct FileInfo {
    /// Relative path from base_path (e.g. "notes/my-note.md")
    pub path: String,
    /// blake3 hex digest of file content at index time
    pub content_hash: String,
    /// Modification time in seconds since epoch
    pub mtime: u64,
    /// Chunk IDs belonging to this file
    pub chunk_ids: Vec<String>,
}

/// One chunk entry stored in the manifest (metadata only; text lives on disk).
pub struct ChunkEntry {
    pub id: String,
    pub source_file: String,
    pub line_start: usize,
    pub line_end: usize,
    pub heading: Option<String>,
    pub heading_path: Vec<String>,
}

/// The index manifest: what was indexed, and with which settings.
pub struct SearchManifest {
    /// Format version
    pub version: u32,
    /// e.g. "google/embedding-gemma-300m"
    pub model_id: String,
    /// Embedding dimension (for matryoshka truncation)
    pub embedding_dim: u32,
    /// Chunking params captured at index time
    pub chunk_config: ChunkConfigSnapshot,
    /// Per-file metadata
    pub files: Vec<FileInfo>,
    /// Chunk list with heading_path and line spans
    pub chunks: Vec<ChunkEntry>,
    /// blake3 hex of combined per-file hashes (sorted by path)
    pub content_hash: String,
    /// RFC 3339 timestamp of last successful index
    pub last_indexed: Option<String>,
    /// Whether dense embeddings are available
    pub has_embeddings: bool,
    /// The embedding endpoint the vectors came from (`None`: no endpoint configured)
    pub embedding_api_base: Option<String>,
}

impl SearchManifest {
    /// Create a fresh manifest with sensible defaults.
    pub fn new_empty(model_id: String, embedding_dim: u32, chunk_config: ChunkConfigSnapshot) -> (r:
        Self)
        ensures
            r.version == INDEX_FORMAT_VERSION,
            r.model_id == model_id,
            r.embedding_dim == embedding_dim,
            r.chunk_config == chunk_config,
            r.files@.len() == 0,
            r.chunks@.len() == 0,
            r.content_hash@.len() == 0,
            r.last_indexed is None,
            !r.has_embeddings,
            r.embedding_api_base is None,
    {
        SearchManifest {
            version: INDEX_FORMAT_VERSION,
            model_id,
            embedding_dim,
            chunk_config,
            files: Vec::new(),
            chunks: Vec::new(),
            content_hash: String::new(),
            last_indexed: None,
            has_embeddings: false,
            embedding_api_base: None,
        }
    }

    /// Total number of chunks (derived from chunks.len()).
    pub fn chunk_count(&self) -> (r: usize)
        ensures
            r == self.chunks@.len(),
    {
        self.chunks.len()
    }

    /// Number of documents indexed (derived from files.len()).
    pub fn document_count(&self) -> (r: usize)
        ensures
            r == self.files@.len(),
    {
        self.files.len()
    }
}

// ---------------------------------------------------------------------------
// Content hashes
// ---------------------------------------------------------------------------

/// The lowercase hex BLAKE3 digest of the UTF-8 bytes of a text.
pub uninterp spec fn blake3_hex(s: Seq<char>) -> Seq<char>;

/// `blake3::hash` of the text's bytes, as hex (`Hash::to_hex`): 64 lowercase hex digits.
#[verifier::external_body]
pub(crate) fn blake3_hash_str(s: &str) -> (r: String)
    ensures
        r@ == blake3_hex(s@),
        r@.len() == 64,
{
    blake3::hash(s.as_bytes()).to_hex().to_string()
}


// ---------------------------------------------------------------------------
// Maps ordered by key
// ---------------------------------------------------------------------------
//
// Maps keyed by path are kept as `(key, value)` pairs in key order rather than in a
// `BTreeMap<String, _>` or `HashMap<String, _>`. vstd states what those collections'
// `insert`, `get` and iteration do only for key types that obey its comparison or hashing
// model (`key_obeys_cmp_spec`, `obeys_key_model`), and it grants that to integers and
// `bool` but not to `String`: a string-keyed map would come with nothing provable about its
// contents or the order of its entries. The pairs below give each operation an exact
// contract (the `sm_*` spec functions), in the same key order a `BTreeMap` walks.

/// Where key `k` belongs in the key-ordered entries `m`, scanning from `i`: at the first entry
/// whose key is not smaller.
pub open spec fn sm_pos(m: Seq<(Seq<char>, int)>, k: Seq<char>, i: int) -> int
    decreases m.len() - i,
{
    if i < 0 || i >= m.len() {
        m.len() as int
    } else if lex_lt(m[i].0, k) {
        sm_pos(m, k, i + 1)
    } else {
        i
    }
}

/// `m` with `(k, v)` inserted in key order, or the value of key `k` replaced
/// (`BTreeMap::insert`).
pub open spec fn sm_insert(m: Seq<(Seq<char>, int)>, k: Seq<char>, v: int) -> Seq<(Seq<char>, int)> {
    let p = sm_pos(m, k, 0);
    if p < m.len() && m[p].0 == k {
        m.update(p, (k, v))
    } else {
        m.insert(p, (k, v))
    }
}

/// The map from each of `keys[..n]` to the index of its last occurrence, in key order: a
/// `BTreeMap` filled from `keys`.
pub open spec fn sm_from(keys: Seq<Seq<char>>, n: int) -> Seq<(Seq<char>, int)>
    decreases n,
{
    if n <= 0 {
        seq![]
    } else {
        sm_insert(sm_from(keys, n - 1), keys[n - 1], n - 1)
    }
}

/// Index of the entry of `m` with key `k`, scanning from `i`.
pub open spec fn sm_find(m: Seq<(Seq<char>, int)>, k: Seq<char>, i: int) -> Option<int>
    decreases m.len() - i,
{
    if i < 0 || i >= m.len() {
        None
    } else if m[i].0 == k {
        Some(i)
    } else {
        sm_find(m, k, i + 1)
    }
}

pub open spec fn sm_view(m: Seq<(Vec<char>, usize)>) -> Seq<(Seq<char>, int)> {
    m.map_values(|e: (Vec<char>, usize)| (e.0@, e.1 as int))
}

pub proof fn lemma_sm_pos(m: Seq<(Seq<char>, int)>, k: Seq<char>, i: int)
    requires
        0 <= i <= m.len(),
    ensures
        i <= sm_pos(m, k, i) <= m.len(),
    decreases m.len() - i,
{
    if i < m.len() && lex_lt(m[i].0, k) {
        lemma_sm_pos(m, k, i + 1);
    }
}

/// Inserts `(k, v)` into the key-ordered map `m`.
pub fn sm_insert_exec(m: &mut Vec<(Vec<char>, usize)>, k: Vec<char>, v: usize)
    ensures
        sm_view(final(m)@) == sm_insert(sm_view(old(m)@), k@, v as int),
{
    let ghost mv = sm_view(m@);
    let mut p: usize = 0;
    while p < m.len() && lex_less(&m[p].0, &k)
        invariant
            p <= m@.len(),
            mv == sm_view(m@),
            sm_pos(mv, k@, 0) == sm_pos(mv, k@, p as int),
        decreases m@.len() - p,
    {
        assert(mv[p as int] == (m@[p as int].0@, m@[p as int].1 as int));
        p += 1;
    }
    proof {
        if p < m@.len() {
            assert(mv[p as int] == (m@[p as int].0@, m@[p as int].1 as int));
        }
    }
    if p < m.len() && chars_eq(&m[p].0, &k) {
        assert(mv[p as int].0 == k@);
        let ghost before = m@;
        m.set(p, (k, v));
        assert(sm_view(m@) =~= mv.update(p as int, (k@, v as int)));
    } else {
        proof {
            if p < m@.len() {
                assert(mv[p as int].0 != k@);
            }
        }
        let ghost kv = k@;
        m.insert(p, (k, v));
        assert(sm_view(m@) =~= mv.insert(p as int, (kv, v as int)));
    }
}

/// Looks up key `k` in the map `m`.
pub fn sm_find_exec(m: &Vec<(Vec<char>, usize)>, k: &Vec<char>) -> (r: Option<usize>)
    ensures
        r is None <==> sm_find(sm_view(m@), k@, 0) is None,
        r matches Some(x) ==> x < m@.len() && sm_find(sm_view(m@), k@, 0) == Some(x as int),
{
    let ghost mv = sm_view(m@);
    let mut i: usize = 0;
    while i < m.len()
        invariant
            i <= m@.len(),
            mv == sm_view(m@),
            sm_find(mv, k@, 0) == sm_find(mv, k@, i as int),
        decreases m@.len() - i,
    {
        assert(mv[i as int] == (m@[i as int].0@, m@[i as int].1 as int));
        if chars_eq(&m[i].0, k) {
            return Some(i);
        }
        i += 1;
    }
    None
}


// ---------------------------------------------------------------------------
// Staleness detection
// ---------------------------------------------------------------------------

/// Reasons that force a full rebuild.
pub enum RebuildReason {
    /// Format version mismatch (old v1 manifest present).
    VersionMismatch,
    /// Model ID changed since last index.
    ModelChanged(String),
    /// Embedding dimension changed.
    DimensionChanged(u32),
    /// Chunking parameters changed.
    ChunkConfigChanged,
    /// Embedding endpoint changed.
    EndpointChanged,
}

/// Result of comparing the current filesystem state against the manifest.
pub enum StalenessDiff {
    /// Nothing has changed — index is up to date.
    UpToDate,
    /// Some files were added, modified, or removed; incremental update is possible.
    Incremental { added: Vec<String>, modified: Vec<String>, removed: Vec<String> },
    /// Full rebuild required (param mismatch, version mismatch, etc.).
    FullRebuild(RebuildReason),
}

impl StalenessDiff {
    /// Convenience: is a full rebuild needed?
    pub fn requires_full_rebuild(&self) -> (r: bool)
        ensures
            r == (self is FullRebuild),
    {
        match self {
            StalenessDiff::FullRebuild(_) => true,
            _ => false,
        }
    }
}

/// A markdown file of the vault as it is now: its path relative to the vault, its full path,
/// its content and its modification time.
pub struct ScannedFile {
    pub path: String,
    pub full_path: String,
    pub content: String,
    /// Modification time in seconds since epoch
    pub mtime: u64,
}

pub open spec fn scanned_keys(fs: Seq<ScannedFile>) -> Seq<Seq<char>> {
    fs.map_values(|f: ScannedFile| f.path@)
}

pub open spec fn info_keys(fs: Seq<FileInfo>) -> Seq<Seq<char>> {
    fs.map_values(|f: FileInfo| f.path@)
}

/// The chunking parameters that a configuration asks for.
pub open spec fn snapshot_of(config: &Config) -> ChunkConfigSnapshot {
    ChunkConfigSnapshot {
        max_tokens: config.search.max_seq_tokens,
        overlap_tokens: config.search.chunk_overlap_tokens,
        min_chunk_size: config.search.min_chunk_tokens,
        merge_threshold: config.search.merge_threshold,
    }
}

/// Full paths of the current files, from entry `j` of the current map `cm` on, that the
/// manifest map `mm` does not know.
pub open spec fn added_from(
    cm: Seq<(Seq<char>, int)>,
    mm: Seq<(Seq<char>, int)>,
    cur: Seq<ScannedFile>,
    j: int,
) -> Seq<Seq<char>>
    decreases cm.len() - j,
{
    if j < 0 || j >= cm.len() {
        seq![]
    } else {
        let rest = added_from(cm, mm, cur, j + 1);
        if sm_find(mm, cm[j].0, 0) is None {
            seq![cur[cm[j].1].full_path@] + rest
        } else {
            rest
        }
    }
}

/// Full paths of the current files, from entry `j` on, that the manifest knows with another
/// modification time and another content hash.
pub open spec fn modified_from(
    cm: Seq<(Seq<char>, int)>,
    mm: Seq<(Seq<char>, int)>,
    cur: Seq<ScannedFile>,
    files: Seq<FileInfo>,
    j: int,
) -> Seq<Seq<char>>
    decreases cm.len() - j,
{
    if j < 0 || j >= cm.len() {
        seq![]
    } else {
        let rest = modified_from(cm, mm, cur, files, j + 1);
        match sm_find(mm, cm[j].0, 0) {
            Some(q) => if cur[cm[j].1].mtime != files[mm[q].1].mtime && blake3_hex(
                cur[cm[j].1].content@,
            ) != files[mm[q].1].content_hash@ {
                seq![cur[cm[j].1].full_path@] + rest
            } else {
                rest
            },
            None => rest,
        }
    }
}

/// Manifest paths, from entry `q` of `mm` on, with no current file.
pub open spec fn removed_from(cm: Seq<(Seq<char>, int)>, mm: Seq<(Seq<char>, int)>, q: int) -> Seq<
    Seq<char>,
>
    decreases mm.len() - q,
{
    if q < 0 || q >= mm.len() {
        seq![]
    } else {
        let rest = removed_from(cm, mm, q + 1);
        if sm_find(cm, mm[q].0, 0) is None {
            seq![mm[q].0] + rest
        } else {
            rest
        }
    }
}

/// `d` is the staleness of the index whose manifest is `manifest`, for the configuration
/// `config` and the current files `cur`: a full rebuild when the model, the dimension, the
/// chunking parameters or the embedding endpoint differ (checked in that order); else the added, modified and removed
/// files, each list in path order, or up to date when all three are empty.
pub open spec fn staleness_is(
    d: StalenessDiff,
    config: &Config,
    manifest: &SearchManifest,
    cur: Seq<ScannedFile>,
) -> bool {
    if manifest.model_id@ != config.search.model_id@ {
        d matches StalenessDiff::FullRebuild(RebuildReason::ModelChanged(m)) && m@
            == manifest.model_id@
    } else if manifest.embedding_dim != config.search.embedding_dim {
        d == StalenessDiff::FullRebuild(RebuildReason::DimensionChanged(manifest.embedding_dim))
    } else if manifest.chunk_config != snapshot_of(config) {
        d == StalenessDiff::FullRebuild(RebuildReason::ChunkConfigChanged)
    } else if opt_view(manifest.embedding_api_base) != opt_view(config.search.embedding_api_base) {
        d == StalenessDiff::FullRebuild(RebuildReason::EndpointChanged)
    } else {
        let cm = sm_from(scanned_keys(cur), cur.len() as int);
        let mm = sm_from(info_keys(manifest.files@), manifest.files@.len() as int);
        let a = added_from(cm, mm, cur, 0);
        let m = modified_from(cm, mm, cur, manifest.files@, 0);
        let r = removed_from(cm, mm, 0);
        if a.len() == 0 && m.len() == 0 && r.len() == 0 {
            d is UpToDate
        } else {
            d matches StalenessDiff::Incremental { added, modified, removed } && strings_view(
                added@,
            ) == a && strings_view(modified@) == m && strings_view(removed@) == r
        }
    }
}


pub proof fn lemma_sm_from(keys: Seq<Seq<char>>, n: int)
    requires
        0 <= n <= keys.len(),
    ensures
        forall|i: int|
            0 <= i < sm_from(keys, n).len() ==> 0 <= (#[trigger] sm_from(keys, n)[i]).1 < n
                && sm_from(keys, n)[i].0 == keys[sm_from(keys, n)[i].1],
    decreases n,
{
    if n > 0 {
        lemma_sm_from(keys, n - 1);
        let m = sm_from(keys, n - 1);
        let k = keys[n - 1];
        lemma_sm_pos(m, k, 0);
        let p = sm_pos(m, k, 0);
        let r = sm_from(keys, n);
        assert forall|i: int| 0 <= i < r.len() implies 0 <= (#[trigger] r[i]).1 < n && r[i].0
            == keys[r[i].1] by {
            if p < m.len() && m[p].0 == k {
                if i != p {
                    assert(r[i] == m[i]);
                }
            } else {
                if i < p {
                    assert(r[i] == m[i]);
                } else if i > p {
                    assert(r[i] == m[i - 1]);
                }
            }
        }
    }
}

/// Compute the staleness diff between the current files of the vault and the manifest.
///
/// Algorithm:
/// 1. Param check first — model_id, embedding_dim, chunk_config, embedding endpoint
///    mismatch → FullRebuild.
/// 2. Files new to the manifest are added; manifest files no longer present are removed.
/// 3. mtime pre-check: a known file whose mtime is the recorded one is unchanged.
/// 4. A known file whose mtime changed is modified only if its blake3 content hash differs.
pub fn compute_staleness_diff(config: &Config, manifest: &SearchManifest, current: &Vec<ScannedFile>) -> (r:
    StalenessDiff)
    ensures
        staleness_is(r, config, manifest, current@),
{
    if !(manifest.model_id == config.search.model_id) {
        return StalenessDiff::FullRebuild(RebuildReason::ModelChanged(manifest.model_id.clone()));
    }
    if manifest.embedding_dim != config.search.embedding_dim {
        return StalenessDiff::FullRebuild(RebuildReason::DimensionChanged(manifest.embedding_dim));
    }
    let current_chunk_config = ChunkConfigSnapshot {
        max_tokens: config.search.max_seq_tokens,
        overlap_tokens: config.search.chunk_overlap_tokens,
        min_chunk_size: config.search.min_chunk_tokens,
        merge_threshold: config.search.merge_threshold,
    };
    if !(manifest.chunk_config == current_chunk_config) {
        return StalenessDiff::FullRebuild(RebuildReason::ChunkConfigChanged);
    }
    let same_endpoint = match (&manifest.embedding_api_base, &config.search.embedding_api_base) {
        (Some(a), Some(b)) => *a == *b,
        (None, None) => true,
        _ => false,
    };
    if !same_endpoint {
        return StalenessDiff::FullRebuild(RebuildReason::EndpointChanged);
    }
    let ghost ck = scanned_keys(current@);
    let ghost mk = info_keys(manifest.files@);
    let mut cm: Vec<(Vec<char>, usize)> = Vec::new();
    let mut i: usize = 0;
    while i < current.len()
        invariant
            i <= current@.len(),
            ck == scanned_keys(current@),
            sm_view(cm@) == sm_from(ck, i as int),
        decreases current@.len() - i,
    {
        assert(ck[i as int] == current@[i as int].path@);
        sm_insert_exec(&mut cm, chars_of(current[i].path.as_str()), i);
        i += 1;
    }
    let mut mm: Vec<(Vec<char>, usize)> = Vec::new();
    let mut i: usize = 0;
    while i < manifest.files.len()
        invariant
            i <= manifest.files@.len(),
            mk == info_keys(manifest.files@),
            sm_view(mm@) == sm_from(mk, i as int),
        decreases manifest.files@.len() - i,
    {
        assert(mk[i as int] == manifest.files@[i as int].path@);
        sm_insert_exec(&mut mm, chars_of(manifest.files[i].path.as_str()), i);
        i += 1;
    }
    let ghost cmv = sm_view(cm@);
    let ghost mmv = sm_view(mm@);
    proof {
        lemma_sm_from(ck, current@.len() as int);
        lemma_sm_from(mk, manifest.files@.len() as int);
    }
    let mut added: Vec<String> = Vec::new();
    let mut modified: Vec<String> = Vec::new();
    let mut j: usize = 0;
    while j < cm.len()
        invariant
            j <= cm@.len(),
            cmv == sm_view(cm@),
            mmv == sm_view(mm@),
            cmv == sm_from(ck, current@.len() as int),
            mmv == sm_from(mk, manifest.files@.len() as int),
            forall|x: int| 0 <= x < cmv.len() ==> 0 <= (#[trigger] cmv[x]).1 < current@.len(),
            forall|x: int| 0 <= x < mmv.len() ==> 0 <= (#[trigger] mmv[x]).1 < manifest.files@.len(),
            strings_view(added@) + added_from(cmv, mmv, current@, j as int) == added_from(
                cmv,
                mmv,
                current@,
                0,
            ),
            strings_view(modified@) + modified_from(cmv, mmv, current@, manifest.files@, j as int)
                == modified_from(cmv, mmv, current@, manifest.files@, 0),
        decreases cm@.len() - j,
    {
        assert(cmv[j as int] == (cm@[j as int].0@, cm@[j as int].1 as int));
        let idx = cm[j].1;
        let ghost before_a = added@;
        let ghost before_m = modified@;
        match sm_find_exec(&mm, &cm[j].0) {
            None => {
                added.push(current[idx].full_path.clone());
                assert(strings_view(added@) =~= strings_view(before_a).push(current@[idx as int].full_path@));
                assert(strings_view(added@) + added_from(cmv, mmv, current@, j + 1) =~= strings_view(
                    before_a,
                ) + added_from(cmv, mmv, current@, j as int));
                assert(modified_from(cmv, mmv, current@, manifest.files@, j as int) == modified_from(
                    cmv,
                    mmv,
                    current@,
                    manifest.files@,
                    j + 1,
                ));
            },
            Some(q) => {
                assert(mmv[q as int] == (mm@[q as int].0@, mm@[q as int].1 as int));
                let fi = mm[q].1;
                let changed = if current[idx].mtime == manifest.files[fi].mtime {
                    false
                } else {
                    let hash = blake3_hash_str(current[idx].content.as_str());
                    !(hash == manifest.files[fi].content_hash)
                };
                if changed {
                    modified.push(current[idx].full_path.clone());
                    assert(strings_view(modified@) =~= strings_view(before_m).push(
                        current@[idx as int].full_path@,
                    ));
                    assert(strings_view(modified@) + modified_from(
                        cmv,
                        mmv,
                        current@,
                        manifest.files@,
                        j + 1,
                    ) =~= strings_view(before_m) + modified_from(
                        cmv,
                        mmv,
                        current@,
                        manifest.files@,
                        j as int,
                    ));
                } else {
                    assert(modified_from(cmv, mmv, current@, manifest.files@, j as int)
                        == modified_from(cmv, mmv, current@, manifest.files@, j + 1));
                }
                assert(added_from(cmv, mmv, current@, j as int) == added_from(
                    cmv,
                    mmv,
                    current@,
                    j + 1,
                ));
            },
        }
        j += 1;
    }
    let mut removed: Vec<String> = Vec::new();
    let mut q: usize = 0;
    while q < mm.len()
        invariant
            q <= mm@.len(),
            cmv == sm_view(cm@),
            mmv == sm_view(mm@),
            strings_view(removed@) + removed_from(cmv, mmv, q as int) == removed_from(cmv, mmv, 0),
        decreases mm@.len() - q,
    {
        assert(mmv[q as int] == (mm@[q as int].0@, mm@[q as int].1 as int));
        let ghost before = removed@;
        if sm_find_exec(&cm, &mm[q].0).is_none() {
            removed.push(string_of_range(&mm[q].0, 0, mm[q].0.len()));
            assert(mm@[q as int].0@.subrange(0, mm@[q as int].0@.len() as int) =~= mm@[q as int].0@);
            assert(strings_view(removed@) =~= strings_view(before).push(mmv[q as int].0));
            assert(strings_view(removed@) + removed_from(cmv, mmv, q + 1) =~= strings_view(before)
                + removed_from(cmv, mmv, q as int));
        } else {
            assert(removed_from(cmv, mmv, q as int) == removed_from(cmv, mmv, q + 1));
        }
        q += 1;
    }
    proof {
        assert(added_from(cmv, mmv, current@, j as int) =~= seq![]);
        assert(modified_from(cmv, mmv, current@, manifest.files@, j as int) =~= seq![]);
        assert(removed_from(cmv, mmv, q as int) =~= seq![]);
        assert(strings_view(added@) =~= added_from(cmv, mmv, current@, 0));
        assert(strings_view(modified@) =~= modified_from(cmv, mmv, current@, manifest.files@, 0));
        assert(strings_view(removed@) =~= removed_from(cmv, mmv, 0));
    }
    if added.len() == 0 && modified.len() == 0 && removed.len() == 0 {
        return StalenessDiff::UpToDate;
    }
    StalenessDiff::Incremental { added, modified, removed }
}


/// The hashes of the entries of the map `m`, concatenated in key order; `hs` holds the
/// `(path, hash)` pairs the map's values index.
pub open spec fn hashes_in_order(m: Seq<(Seq<char>, int)>, hs: Seq<(String, String)>, k: int) -> Seq<char>
    decreases k,
{
    if k <= 0 {
        seq![]
    } else {
        hashes_in_order(m, hs, k - 1) + hs[m[k - 1].1].1@
    }
}

pub open spec fn pair_keys(hs: Seq<(String, String)>) -> Seq<Seq<char>> {
    hs.map_values(|p: (String, String)| p.0@)
}

/// Compute the overall content hash: blake3 of all per-file hashes, in path order, the last
/// hash given for a path counting.
pub fn compute_overall_content_hash(file_hashes: &Vec<(String, String)>) -> (r: String)
    ensures
        r@ == overall_hash(file_hashes@),
{
    let ghost keys = pair_keys(file_hashes@);
    let mut m: Vec<(Vec<char>, usize)> = Vec::new();
    let mut i: usize = 0;
    while i < file_hashes.len()
        invariant
            i <= file_hashes@.len(),
            keys == pair_keys(file_hashes@),
            sm_view(m@) == sm_from(keys, i as int),
        decreases file_hashes@.len() - i,
    {
        assert(keys[i as int] == file_hashes@[i as int].0@);
        sm_insert_exec(&mut m, chars_of(file_hashes[i].0.as_str()), i);
        i += 1;
    }
    let ghost mv = sm_view(m@);
    proof {
        lemma_sm_from(keys, file_hashes@.len() as int);
    }
    let mut all = String::new();
    let mut k: usize = 0;
    while k < m.len()
        invariant
            k <= m@.len(),
            mv == sm_view(m@),
            mv == sm_from(keys, file_hashes@.len() as int),
            forall|x: int| 0 <= x < mv.len() ==> 0 <= (#[trigger] mv[x]).1 < file_hashes@.len(),
            all@ == hashes_in_order(mv, file_hashes@, k as int),
        decreases m@.len() - k,
    {
        assert(mv[k as int] == (m@[k as int].0@, m@[k as int].1 as int));
        push_str(&mut all, file_hashes[m[k].1].1.as_str());
        k += 1;
    }
    blake3_hash_str(all.as_str())
}

// ---------------------------------------------------------------------------
// SearchIndex
// ---------------------------------------------------------------------------

/// A complete search index on disk.
pub struct SearchIndex {
    /// Base directory for the index (e.g., `.notectl/search/`).
    base_dir: String,
    manifest: SearchManifest,
}

impl SearchIndex {
    pub closed spec fn dir(&self) -> Seq<char> {
        self.base_dir@
    }

    pub closed spec fn current_manifest(&self) -> SearchManifest {
        self.manifest
    }

    /// Opens the index in `base_dir` given the manifest stored there, if one was read and
    /// parsed: a stored manifest of the current format version is kept; any other, or none,
    /// is replaced by an empty manifest for the given model and chunking parameters.
    pub fn open_or_create(
        base_dir: String,
        stored: Option<SearchManifest>,
        model_id: String,
        embedding_dim: u32,
        chunk_config: ChunkConfigSnapshot,
    ) -> (r: Self)
        ensures
            r.dir() == base_dir@,
            match stored {
                Some(m) if m.version == INDEX_FORMAT_VERSION => r.current_manifest() == m,
                _ => {
                    let e = r.current_manifest();
                    &&& e.version == INDEX_FORMAT_VERSION
                    &&& e.model_id == model_id
                    &&& e.embedding_dim == embedding_dim
                    &&& e.chunk_config == chunk_config
                    &&& e.files@.len() == 0
                    &&& e.chunks@.len() == 0
                    &&& e.content_hash@.len() == 0
                    &&& e.last_indexed is None
                    &&& !e.has_embeddings
                },
            },
    {
        let manifest = match stored {
            Some(m) => if m.version == INDEX_FORMAT_VERSION {
                m
            } else {
                SearchManifest::new_empty(model_id, embedding_dim, chunk_config)
            },
            None => SearchManifest::new_empty(model_id, embedding_dim, chunk_config),
        };
        SearchIndex { base_dir, manifest }
    }

    /// Get the base directory path.
    pub fn base_dir(&self) -> (r: &String)
        ensures
            r@ == self.dir(),
    {
        &self.base_dir
    }

    /// Get a reference to the manifest.
    pub fn manifest(&self) -> (r: &SearchManifest)
        ensures
            *r == self.current_manifest(),
    {
        &self.manifest
    }

    /// Get a mutable reference to the manifest.
    pub fn manifest_mut(&mut self) -> (r: &mut SearchManifest)
        ensures
            *r == old(self).current_manifest(),
            final(self).current_manifest() == *final(r),
            final(self).dir() == old(self).dir(),
    {
        &mut self.manifest
    }
}

// ---------------------------------------------------------------------------
// Timestamps
// ---------------------------------------------------------------------------

/// `(year, month, day)` of a day number (days since 1970-01-01), by the civil-from-days
/// algorithm of H. Hinnant, in unsigned arithmetic.
pub open spec fn hinnant_ymd(days: int) -> (int, int, int) {
    let z = days + 719468;
    let era = z / 146097;
    let doe = z - era * 146097;
    let yoe = (doe - doe / 1460 + doe / 36524 - doe / 146096) / 365;
    let y = yoe + era * 400;
    let doy = doe - (365 * yoe + yoe / 4 - yoe / 100);
    let mp = (5 * doy + 2) / 153;
    let d = doy - (153 * mp + 2) / 5 + 1;
    let m = if mp < 10 {
        mp + 3
    } else {
        mp - 9
    };
    (if m <= 2 {
        y + 1
    } else {
        y
    }, m, d)
}

/// Convert days since Unix epoch to (year, month, day).
pub fn days_to_ymd(days: u64) -> (r: (u64, u64, u64))
    requires
        days <= u64::MAX - 719468,
    ensures
        (r.0 as int, r.1 as int, r.2 as int) == hinnant_ymd(days as int),
{
    let z = days + 719468;
    let era = z / 146097;
    assert(era * 146097 <= z) by (nonlinear_arith)
        requires
            era == z / 146097,
    ;
    let doe = z - era * 146097;
    assert(doe < 146097) by (nonlinear_arith)
        requires
            era == z / 146097,
            doe == z - era * 146097,
    ;
    let yoe = (doe - doe / 1460 + doe / 36524 - doe / 146096) / 365;
    assert(yoe <= 400);
    assert(era <= u64::MAX / 146097);
    let y = yoe + era * 400;
    assert(365 * yoe + yoe / 4 - yoe / 100 <= doe) by (nonlinear_arith)
        requires
            yoe == (doe - doe / 1460 + doe / 36524 - doe / 146096) / 365,
            doe < 146097,
    ;
    let doy = doe - (365 * yoe + yoe / 4 - yoe / 100);
    assert(doy < 366) by (nonlinear_arith)
        requires
            yoe == (doe - doe / 1460 + doe / 36524 - doe / 146096) / 365,
            doe < 146097,
            doy == doe - (365 * yoe + yoe / 4 - yoe / 100),
    ;
    let mp = (5 * doy + 2) / 153;
    assert((153 * mp + 2) / 5 <= doy) by (nonlinear_arith)
        requires
            mp == (5 * doy + 2) / 153,
    ;
    let d = doy - (153 * mp + 2) / 5 + 1;
    let m = if mp < 10 { mp + 3 } else { mp - 9 };
    let y = if m <= 2 { y + 1 } else { y };
    (y, m, d)
}

/// `YYYY-MM-DDTHH:MM:SSZ` for `secs` seconds since the Unix epoch.
pub open spec fn rfc3339_of(secs: int) -> Seq<char> {
    let (y, m, d) = hinnant_ymd(secs / 86400);
    let t = secs % 86400;
    padded(y as nat, 4) + seq!['-'] + padded(m as nat, 2) + seq!['-'] + padded(d as nat, 2) + seq![
        'T',
    ] + padded((t / 3600) as nat, 2) + seq![':'] + padded(((t % 3600) / 60) as nat, 2) + seq![':']
        + padded((t % 60) as nat, 2) + seq!['Z']
}

/// RFC 3339 UTC timestamp of `secs` seconds since the Unix epoch.
pub fn rfc3339_at(secs: u64) -> (r: String)
    ensures
        r@ == rfc3339_of(secs as int),
{
    let days_since_epoch = secs / 86400;
    let time_of_day = secs % 86400;
    let hours = time_of_day / 3600;
    let minutes = (time_of_day % 3600) / 60;
    let seconds = time_of_day % 60;
    let (year, month, day) = days_to_ymd(days_since_epoch);
    let mut s = String::new();
    push_padded(&mut s, year, 4);
    s.push('-');
    push_padded(&mut s, month, 2);
    s.push('-');
    push_padded(&mut s, day, 2);
    s.push('T');
    push_padded(&mut s, hours, 2);
    s.push(':');
    push_padded(&mut s, minutes, 2);
    s.push(':');
    push_padded(&mut s, seconds, 2);
    s.push('Z');
    assert(s@ =~= rfc3339_of(secs as int));
    s
}

/// The current time as an RFC 3339 UTC timestamp: `rfc3339_of` some reading of the clock.
pub fn chrono_now_rfc3339() -> (r: String)
    ensures
        exists|secs: u64| r@ == #[trigger] rfc3339_of(secs as int),
{
    let secs = unix_now_secs();
    rfc3339_at(secs)
}


/// The keys of `m` strictly ascend.
pub open spec fn sm_ordered(m: Seq<(Seq<char>, int)>) -> bool {
    forall|i: int, j: int| 0 <= i < j < m.len() ==> lex_lt(#[trigger] m[i].0, #[trigger] m[j].0)
}

proof fn lemma_sm_pos_bounds(m: Seq<(Seq<char>, int)>, k: Seq<char>, i: int)
    requires
        0 <= i <= m.len(),
        forall|j: int| 0 <= j < i ==> lex_lt((#[trigger] m[j]).0, k),
    ensures
        i <= sm_pos(m, k, i) <= m.len(),
        forall|j: int| 0 <= j < sm_pos(m, k, i) ==> lex_lt((#[trigger] m[j]).0, k),
        sm_pos(m, k, i) < m.len() ==> !lex_lt(m[sm_pos(m, k, i)].0, k),
    decreases m.len() - i,
{
    if i < m.len() && lex_lt(m[i].0, k) {
        lemma_sm_pos_bounds(m, k, i + 1);
    }
}

/// Inserting into a key-ordered map keeps its keys strictly ascending.
pub proof fn lemma_sm_insert_ordered(m: Seq<(Seq<char>, int)>, k: Seq<char>, v: int)
    requires
        sm_ordered(m),
    ensures
        sm_ordered(sm_insert(m, k, v)),
{
    lemma_sm_pos_bounds(m, k, 0);
    let p = sm_pos(m, k, 0);
    let r = sm_insert(m, k, v);
    if p < m.len() && m[p].0 == k {
        assert forall|i: int, j: int| 0 <= i < j < r.len() implies lex_lt(#[trigger] r[i].0, #[trigger] r[j].0) by {
            assert(r[i].0 == m[i].0 && r[j].0 == m[j].0);
        }
    } else {
        if p < m.len() {
            lemma_lex_total(m[p].0, k);
        }
        assert forall|i: int, j: int| 0 <= i < j < r.len() implies lex_lt(#[trigger] r[i].0, #[trigger] r[j].0) by {
            if j < p {
                assert(r[i] == m[i] && r[j] == m[j]);
            } else if j == p {
                assert(r[i] == m[i]);
            } else if i < p {
                assert(r[i] == m[i] && r[j] == m[j - 1]);
                if j - 1 > p {
                    lemma_lex_trans(k, m[p].0, m[j - 1].0);
                }
                lemma_lex_trans(m[i].0, k, m[j - 1].0);
            } else if i == p {
                assert(r[j] == m[j - 1]);
                if j - 1 > p {
                    lemma_lex_trans(k, m[p].0, m[j - 1].0);
                }
            } else {
                assert(r[i] == m[i - 1] && r[j] == m[j - 1]);
            }
        }
    }
}

/// A map filled key by key (a `BTreeMap`) holds its keys in strictly ascending order.
pub proof fn law_key_order(keys: Seq<Seq<char>>, n: int)
    ensures
        sm_ordered(sm_from(keys, n)),
    decreases n,
{
    if n > 0 {
        law_key_order(keys, n - 1);
        lemma_sm_insert_ordered(sm_from(keys, n - 1), keys[n - 1], n - 1);
    }
}


proof fn lemma_sm_find_first(m: Seq<(Seq<char>, int)>, k: Seq<char>, i: int, j: int)
    requires
        0 <= i <= j < m.len(),
        m[j].0 == k,
        forall|x: int| i <= x < j ==> m[x].0 != k,
    ensures
        sm_find(m, k, i) == Some(j),
    decreases j - i,
{
    if i < j {
        lemma_sm_find_first(m, k, i + 1, j);
    }
}

/// In a key-ordered map, looking up the key of entry `j` finds entry `j`.
proof fn lemma_sm_find_ordered(m: Seq<(Seq<char>, int)>, j: int)
    requires
        sm_ordered(m),
        0 <= j < m.len(),
    ensures
        sm_find(m, m[j].0, 0) == Some(j),
{
    assert forall|x: int| 0 <= x < j implies m[x].0 != m[j].0 by {
        assert(lex_lt(m[x].0, m[j].0));
        lemma_lex_irrefl(m[j].0);
    }
    lemma_sm_find_first(m, m[j].0, 0, j);
}

proof fn lemma_nothing_added(cm: Seq<(Seq<char>, int)>, cur: Seq<ScannedFile>, files: Seq<FileInfo>, j: int)
    requires
        sm_ordered(cm),
        0 <= j <= cm.len(),
        forall|x: int|
            0 <= x < cm.len() ==> 0 <= (#[trigger] cm[x]).1 < cur.len() && cm[x].1 < files.len(),
        forall|i: int| 0 <= i < cur.len() && i < files.len() ==> files[i].mtime == (#[trigger] cur[i]).mtime
            || files[i].content_hash@ == blake3_hex(cur[i].content@),
    ensures
        added_from(cm, cm, cur, j).len() == 0,
        modified_from(cm, cm, cur, files, j).len() == 0,
        removed_from(cm, cm, j).len() == 0,
    decreases cm.len() - j,
{
    if j < cm.len() {
        lemma_sm_find_ordered(cm, j);
        lemma_nothing_added(cm, cur, files, j + 1);
        let idx = cm[j].1;
        assert(files[idx].mtime == cur[idx].mtime || files[idx].content_hash@ == blake3_hex(cur[idx].content@));
    }
}

/// An index whose manifest records exactly the current files, each with its current
/// modification time or the hash of its current content, under the configured model,
/// dimension, chunking and embedding endpoint, is up to date: the next search reuses it (a file only touched, its
/// content the same, changes nothing; and when all modification times match, no content is
/// compared).
pub proof fn law_current_index_is_up_to_date(
    d: StalenessDiff,
    config: &Config,
    manifest: &SearchManifest,
    cur: Seq<ScannedFile>,
)
    requires
        manifest.model_id@ == config.search.model_id@,
        manifest.embedding_dim == config.search.embedding_dim,
        manifest.chunk_config == snapshot_of(config),
        opt_view(manifest.embedding_api_base) == opt_view(config.search.embedding_api_base),
        manifest.files@.len() == cur.len(),
        forall|i: int|
            0 <= i < cur.len() ==> (#[trigger] manifest.files@[i]).path@ == cur[i].path@
                && (manifest.files@[i].mtime == cur[i].mtime || manifest.files@[i].content_hash@
                == blake3_hex(cur[i].content@)),
        staleness_is(d, config, manifest, cur),
    ensures
        d is UpToDate,
{
    let files = manifest.files@;
    assert(scanned_keys(cur) =~= info_keys(files)) by {
        assert forall|i: int| 0 <= i < cur.len() implies scanned_keys(cur)[i] == info_keys(files)[i] by {
            assert(files[i].path@ == cur[i].path@);
        }
    }
    let cm = sm_from(scanned_keys(cur), cur.len() as int);
    law_key_order(scanned_keys(cur), cur.len() as int);
    lemma_sm_from(scanned_keys(cur), cur.len() as int);
    assert forall|i: int| 0 <= i < cur.len() && i < files.len() implies files[i].mtime == (
    #[trigger] cur[i]).mtime || files[i].content_hash@ == blake3_hex(cur[i].content@) by {
        assert(manifest.files@[i].path@ == cur[i].path@);
    }
    lemma_nothing_added(cm, cur, files, 0);
}


/// The file a chunk's text is stored in: its id with `/`, `\` and `:` replaced by `_`, and
/// `.txt`.
pub open spec fn chunk_file_name_spec(id: Seq<char>) -> Seq<char> {
    id.map_values(|c: char| if c == '/' || c == '\\' || c == ':' {
        '_'
    } else {
        c
    }) + seq!['.', 't', 'x', 't']
}

/// The name of the file a chunk's text is stored in (see `chunk_file_name_spec`).
pub fn chunk_file_name(chunk_id: &str) -> (r: String)
    ensures
        r@ == chunk_file_name_spec(chunk_id@),
{
    let v = chars_of(chunk_id);
    let mut s = String::new();
    let mut i: usize = 0;
    while i < v.len()
        invariant
            i <= v@.len(),
            v@ == chunk_id@,
            s@ == v@.take(i as int).map_values(|c: char| if c == '/' || c == '\\' || c == ':' {
                '_'
            } else {
                c
            }),
        decreases v@.len() - i,
    {
        let c = v[i];
        if c == '/' || c == '\\' || c == ':' {
            s.push('_');
        } else {
            s.push(c);
        }
        assert(v@.take(i + 1) =~= v@.take(i as int).push(c));
        i += 1;
    }
    assert(v@.take(i as int) =~= v@);
    push_str(&mut s, ".txt");
    proof {
        reveal_strlit(".txt");
    }
    assert(s@ =~= chunk_file_name_spec(chunk_id@));
    s
}


proof fn lemma_sm_find_some(m: Seq<(Seq<char>, int)>, k: Seq<char>, i: int)
    requires
        0 <= i,
    ensures
        (sm_find(m, k, i) is Some) <==> (exists|x: int| i <= x < m.len() && (#[trigger] m[x]).0 == k),
    decreases m.len() - i,
{
    if i < m.len() {
        lemma_sm_find_some(m, k, i + 1);
        if m[i].0 != k {
            if exists|x: int| i <= x < m.len() && (#[trigger] m[x]).0 == k {
                let x = choose|x: int| i <= x < m.len() && (#[trigger] m[x]).0 == k;
                assert(i + 1 <= x);
            }
        }
    }
}

/// The keys of a map filled from `keys[..n]` are exactly those keys.
proof fn lemma_sm_from_keys(keys: Seq<Seq<char>>, n: int, k: Seq<char>)
    requires
        0 <= n <= keys.len(),
    ensures
        (exists|x: int| 0 <= x < sm_from(keys, n).len() && (#[trigger] sm_from(keys, n)[x]).0 == k)
            <==> (exists|i: int| 0 <= i < n && keys[i] == k),
    decreases n,
{
    if n > 0 {
        lemma_sm_from_keys(keys, n - 1, k);
        let m = sm_from(keys, n - 1);
        let kn = keys[n - 1];
        lemma_sm_pos(m, kn, 0);
        let p = sm_pos(m, kn, 0);
        let r = sm_from(keys, n);
        let upd = p < m.len() && m[p].0 == kn;
        if exists|x: int| 0 <= x < r.len() && (#[trigger] r[x]).0 == k {
            let x = choose|x: int| 0 <= x < r.len() && (#[trigger] r[x]).0 == k;
            if upd {
                if x == p {
                    assert(keys[n - 1] == k);
                } else {
                    assert(m[x].0 == k);
                    let i = choose|i: int| 0 <= i < n - 1 && keys[i] == k;
                    assert(0 <= i < n && keys[i] == k);
                }
            } else {
                if x == p {
                    assert(keys[n - 1] == k);
                } else if x < p {
                    assert(m[x].0 == k);
                    let i = choose|i: int| 0 <= i < n - 1 && keys[i] == k;
                    assert(0 <= i < n && keys[i] == k);
                } else {
                    assert(m[x - 1].0 == k);
                    let i = choose|i: int| 0 <= i < n - 1 && keys[i] == k;
                    assert(0 <= i < n && keys[i] == k);
                }
            }
        }
        if exists|i: int| 0 <= i < n && keys[i] == k {
            if kn == k {
                if upd {
                    assert(r[p].0 == k);
                } else {
                    assert(r[p].0 == k);
                }
            } else {
                let i = choose|i: int| 0 <= i < n && keys[i] == k;
                assert(i < n - 1);
                let x = choose|x: int| 0 <= x < m.len() && (#[trigger] m[x]).0 == k;
                if upd {
                    assert(r[x].0 == k);
                } else if x < p {
                    assert(r[x].0 == k);
                } else {
                    assert(r[x + 1].0 == k);
                }
            }
        }
    }
}

/// Looking a key up in a map filled from `keys` finds it exactly when it is one of `keys`.
proof fn lemma_sm_from_find(keys: Seq<Seq<char>>, k: Seq<char>)
    ensures
        (sm_find(sm_from(keys, keys.len() as int), k, 0) is Some) <==> keys.contains(k),
{
    lemma_sm_find_some(sm_from(keys, keys.len() as int), k, 0);
    lemma_sm_from_keys(keys, keys.len() as int, k);
    if keys.contains(k) {
        let i = choose|i: int| 0 <= i < keys.len() && keys[i] == k;
        assert(0 <= i < keys.len() && keys[i] == k);
    }
}

proof fn lemma_removed_from(cm: Seq<(Seq<char>, int)>, mm: Seq<(Seq<char>, int)>, q: int, p: Seq<char>)
    requires
        0 <= q <= mm.len(),
    ensures
        removed_from(cm, mm, q).contains(p) <==> (exists|x: int| q <= x < mm.len() && (#[trigger] mm[x]).0 == p)
            && sm_find(cm, p, 0) is None,
    decreases mm.len() - q,
{
    if q < mm.len() {
        lemma_removed_from(cm, mm, q + 1, p);
        let rest = removed_from(cm, mm, q + 1);
        if sm_find(cm, mm[q].0, 0) is None {
            assert(removed_from(cm, mm, q) == seq![mm[q].0] + rest);
            assert(removed_from(cm, mm, q).contains(p) <==> (mm[q].0 == p || rest.contains(p))) by {
                if mm[q].0 == p {
                    assert(removed_from(cm, mm, q)[0] == p);
                }
                if rest.contains(p) {
                    let i = choose|i: int| 0 <= i < rest.len() && rest[i] == p;
                    assert(removed_from(cm, mm, q)[i + 1] == p);
                }
                if removed_from(cm, mm, q).contains(p) {
                    let i = choose|i: int| 0 <= i < removed_from(cm, mm, q).len() && removed_from(cm, mm, q)[i] == p;
                    if i > 0 {
                        assert(rest[i - 1] == p);
                    }
                }
            }
        }
        if exists|x: int| q <= x < mm.len() && (#[trigger] mm[x]).0 == p {
            let x = choose|x: int| q <= x < mm.len() && (#[trigger] mm[x]).0 == p;
            if x > q {
                assert(exists|y: int| q + 1 <= y < mm.len() && (#[trigger] mm[y]).0 == p);
            }
        }
    }
}

/// With the model, the dimension, the chunking and the endpoint unchanged, a path is reported removed
/// exactly when the manifest records it and no current file has it.
pub proof fn law_removed_files(d: StalenessDiff, config: &Config, manifest: &SearchManifest, cur: Seq<ScannedFile>, p: Seq<char>)
    requires
        manifest.model_id@ == config.search.model_id@,
        manifest.embedding_dim == config.search.embedding_dim,
        manifest.chunk_config == snapshot_of(config),
        opt_view(manifest.embedding_api_base) == opt_view(config.search.embedding_api_base),
        staleness_is(d, config, manifest, cur),
    ensures
        d matches StalenessDiff::Incremental { removed, .. } ==> (strings_view(removed@).contains(p)
            <==> info_keys(manifest.files@).contains(p) && !scanned_keys(cur).contains(p)),
        d is UpToDate ==> (info_keys(manifest.files@).contains(p) ==> scanned_keys(cur).contains(p)),
{
    let ck = scanned_keys(cur);
    let mk = info_keys(manifest.files@);
    let cm = sm_from(ck, cur.len() as int);
    let mm = sm_from(mk, manifest.files@.len() as int);
    lemma_removed_from(cm, mm, 0, p);
    lemma_sm_from_find(ck, p);
    lemma_sm_from_find(mk, p);
    lemma_sm_find_some(mm, p, 0);
    if d is UpToDate && mk.contains(p) {
        assert(removed_from(cm, mm, 0).len() == 0);
        assert(!removed_from(cm, mm, 0).contains(p));
    }
}


proof fn lemma_sm_find_hit(m: Seq<(Seq<char>, int)>, k: Seq<char>, i: int)
    requires
        0 <= i,
    ensures
        sm_find(m, k, i) matches Some(x) ==> i <= x < m.len() && m[x].0 == k,
    decreases m.len() - i,
{
    if i < m.len() && m[i].0 != k {
        lemma_sm_find_hit(m, k, i + 1);
    }
}

/// Each of `keys[..n]` has an entry in the map filled from them, whose value is the index of
/// that key or of a later occurrence of it.
proof fn lemma_sm_from_entry(keys: Seq<Seq<char>>, n: int, j: int)
    requires
        0 <= j < n <= keys.len(),
    ensures
        exists|x: int|
            0 <= x < sm_from(keys, n).len() && (#[trigger] sm_from(keys, n)[x]).0 == keys[j]
                && sm_from(keys, n)[x].1 >= j,
    decreases n,
{
    let m = sm_from(keys, n - 1);
    let kn = keys[n - 1];
    lemma_sm_pos(m, kn, 0);
    let p = sm_pos(m, kn, 0);
    let r = sm_from(keys, n);
    let upd = p < m.len() && m[p].0 == kn;
    if j == n - 1 || keys[j] == kn {
        assert(r[p].0 == keys[j] && r[p].1 >= j);
    } else {
        lemma_sm_from_entry(keys, n - 1, j);
        let x = choose|x: int| 0 <= x < m.len() && (#[trigger] m[x]).0 == keys[j] && m[x].1 >= j;
        if upd || x < p {
            assert(r[x] == m[x]);
        } else {
            assert(r[x + 1] == m[x]);
        }
    }
}

proof fn lemma_added_from(cm: Seq<(Seq<char>, int)>, mm: Seq<(Seq<char>, int)>, cur: Seq<ScannedFile>, j: int, f: Seq<char>)
    requires
        0 <= j <= cm.len(),
    ensures
        added_from(cm, mm, cur, j).contains(f) <==> exists|x: int|
            j <= x < cm.len() && sm_find(mm, (#[trigger] cm[x]).0, 0) is None && cur[cm[x].1].full_path@ == f,
    decreases cm.len() - j,
{
    if j < cm.len() {
        lemma_added_from(cm, mm, cur, j + 1, f);
        let rest = added_from(cm, mm, cur, j + 1);
        let all = added_from(cm, mm, cur, j);
        if sm_find(mm, cm[j].0, 0) is None {
            if cur[cm[j].1].full_path@ == f {
                assert(all[0] == f);
            }
            if rest.contains(f) {
                let i = choose|i: int| 0 <= i < rest.len() && rest[i] == f;
                assert(all[i + 1] == f);
            }
            if all.contains(f) {
                let i = choose|i: int| 0 <= i < all.len() && all[i] == f;
                if i > 0 {
                    assert(rest[i - 1] == f);
                }
            }
        }
        if exists|x: int| j <= x < cm.len() && sm_find(mm, (#[trigger] cm[x]).0, 0) is None && cur[cm[x].1].full_path@ == f {
            let x = choose|x: int| j <= x < cm.len() && sm_find(mm, (#[trigger] cm[x]).0, 0) is None && cur[cm[x].1].full_path@ == f;
            if x > j {
                assert(exists|y: int| j + 1 <= y < cm.len() && sm_find(mm, (#[trigger] cm[y]).0, 0) is None && cur[cm[y].1].full_path@ == f);
            }
        }
    }
}

spec fn changed_entry(cm: Seq<(Seq<char>, int)>, mm: Seq<(Seq<char>, int)>, cur: Seq<ScannedFile>, files: Seq<FileInfo>, x: int) -> bool {
    match sm_find(mm, cm[x].0, 0) {
        Some(q) => cur[cm[x].1].mtime != files[mm[q].1].mtime && blake3_hex(cur[cm[x].1].content@)
            != files[mm[q].1].content_hash@,
        None => false,
    }
}

proof fn lemma_modified_from(cm: Seq<(Seq<char>, int)>, mm: Seq<(Seq<char>, int)>, cur: Seq<ScannedFile>, files: Seq<FileInfo>, j: int, f: Seq<char>)
    requires
        0 <= j <= cm.len(),
    ensures
        modified_from(cm, mm, cur, files, j).contains(f) <==> exists|x: int|
            j <= x < cm.len() && #[trigger] changed_entry(cm, mm, cur, files, x) && cur[cm[x].1].full_path@ == f,
    decreases cm.len() - j,
{
    if j < cm.len() {
        lemma_modified_from(cm, mm, cur, files, j + 1, f);
        let rest = modified_from(cm, mm, cur, files, j + 1);
        let all = modified_from(cm, mm, cur, files, j);
        if changed_entry(cm, mm, cur, files, j) {
            if cur[cm[j].1].full_path@ == f {
                assert(all[0] == f);
            }
            if rest.contains(f) {
                let i = choose|i: int| 0 <= i < rest.len() && rest[i] == f;
                assert(all[i + 1] == f);
            }
            if all.contains(f) {
                let i = choose|i: int| 0 <= i < all.len() && all[i] == f;
                if i > 0 {
                    assert(rest[i - 1] == f);
                }
            }
        } else {
            assert(all == rest);
        }
        if exists|x: int| j <= x < cm.len() && #[trigger] changed_entry(cm, mm, cur, files, x) && cur[cm[x].1].full_path@ == f {
            let x = choose|x: int| j <= x < cm.len() && #[trigger] changed_entry(cm, mm, cur, files, x) && cur[cm[x].1].full_path@ == f;
            if x > j {
                assert(exists|y: int| j + 1 <= y < cm.len() && #[trigger] changed_entry(cm, mm, cur, files, y) && cur[cm[y].1].full_path@ == f);
            }
        }
    }
}

/// Some entry of the map `cm` of current paths is the current file `j`.
spec fn file_has_entry(cm: Seq<(Seq<char>, int)>, cur: Seq<ScannedFile>, j: int) -> bool {
    exists|x: int| 0 <= x < cm.len() && (#[trigger] cm[x]).1 == j && cm[x].0 == cur[j].path@
}

/// A current file and a manifest record with the same path whose recorded modification time
/// and hash are not those of the file.
pub open spec fn changed_file(cur: Seq<ScannedFile>, files: Seq<FileInfo>, j: int, i: int) -> bool {
    &&& 0 <= j < cur.len()
    &&& 0 <= i < files.len()
    &&& files[i].path@ == cur[j].path@
    &&& files[i].mtime != cur[j].mtime
    &&& files[i].content_hash@ != blake3_hex(cur[j].content@)
}

/// With the model, the dimension, the chunking and the endpoint unchanged, and paths that occur once among
/// the current files and once in the manifest: a file is reported added exactly when the
/// manifest does not record its path, and modified exactly when the manifest records its path
/// with another modification time and another content hash (each by its full path): a file
/// whose modification time is the recorded one counts as unchanged.
pub proof fn law_added_and_modified_files(
    d: StalenessDiff,
    config: &Config,
    manifest: &SearchManifest,
    cur: Seq<ScannedFile>,
    f: Seq<char>,
)
    requires
        manifest.model_id@ == config.search.model_id@,
        manifest.embedding_dim == config.search.embedding_dim,
        manifest.chunk_config == snapshot_of(config),
        opt_view(manifest.embedding_api_base) == opt_view(config.search.embedding_api_base),
        forall|i: int, j: int| 0 <= i < j < cur.len() ==> cur[i].path@ != cur[j].path@,
        forall|i: int, j: int|
            0 <= i < j < manifest.files@.len() ==> manifest.files@[i].path@ != manifest.files@[j].path@,
        staleness_is(d, config, manifest, cur),
    ensures
        d matches StalenessDiff::Incremental { added, .. } ==> (strings_view(added@).contains(f)
            <==> exists|j: int|
            0 <= j < cur.len() && (#[trigger] cur[j]).full_path@ == f && !info_keys(manifest.files@).contains(cur[j].path@)),
        d matches StalenessDiff::Incremental { modified, .. } ==> (strings_view(modified@).contains(f)
            <==> exists|j: int, i: int|
            #[trigger] changed_file(cur, manifest.files@, j, i) && cur[j].full_path@ == f),
{
    let files = manifest.files@;
    let ck = scanned_keys(cur);
    let mk = info_keys(files);
    let cm = sm_from(ck, cur.len() as int);
    let mm = sm_from(mk, files.len() as int);
    lemma_sm_from(ck, cur.len() as int);
    lemma_sm_from(mk, files.len() as int);
    lemma_added_from(cm, mm, cur, 0, f);
    lemma_modified_from(cm, mm, cur, files, 0, f);
    // Each entry of the current map stands for the current file of its path.
    assert forall|j: int| 0 <= j < cur.len() implies #[trigger] file_has_entry(cm, cur, j) by {
        lemma_sm_from_entry(ck, cur.len() as int, j);
        let x = choose|x: int| 0 <= x < cm.len() && (#[trigger] cm[x]).0 == ck[j] && cm[x].1 >= j;
        let v = cm[x].1;
        assert(ck[v] == ck[j]);
        assert(v == j);
    }
    // Added.
    if exists|x: int| 0 <= x < cm.len() && sm_find(mm, (#[trigger] cm[x]).0, 0) is None && cur[cm[x].1].full_path@ == f {
        let x = choose|x: int| 0 <= x < cm.len() && sm_find(mm, (#[trigger] cm[x]).0, 0) is None && cur[cm[x].1].full_path@ == f;
        let j = cm[x].1;
        lemma_sm_from_find(mk, cm[x].0);
        assert(0 <= j < cur.len() && cur[j].full_path@ == f && !mk.contains(cur[j].path@));
    }
    if exists|j: int| 0 <= j < cur.len() && (#[trigger] cur[j]).full_path@ == f && !mk.contains(cur[j].path@) {
        let j = choose|j: int| 0 <= j < cur.len() && (#[trigger] cur[j]).full_path@ == f && !mk.contains(cur[j].path@);
        assert(file_has_entry(cm, cur, j));
        let x = choose|x: int| 0 <= x < cm.len() && (#[trigger] cm[x]).1 == j && cm[x].0 == cur[j].path@;
        lemma_sm_from_find(mk, cm[x].0);
        assert(sm_find(mm, cm[x].0, 0) is None);
    }
    // Modified.
    if exists|x: int| 0 <= x < cm.len() && #[trigger] changed_entry(cm, mm, cur, files, x) && cur[cm[x].1].full_path@ == f {
        let x = choose|x: int| 0 <= x < cm.len() && #[trigger] changed_entry(cm, mm, cur, files, x) && cur[cm[x].1].full_path@ == f;
        let j = cm[x].1;
        lemma_sm_find_hit(mm, cm[x].0, 0);
        let q = sm_find(mm, cm[x].0, 0).unwrap();
        let i = mm[q].1;
        assert(changed_file(cur, files, j, i));
    }
    if exists|j: int, i: int| #[trigger] changed_file(cur, files, j, i) && cur[j].full_path@ == f {
        let (j, i) = choose|j: int, i: int| #[trigger] changed_file(cur, files, j, i) && cur[j].full_path@ == f;
        assert(file_has_entry(cm, cur, j));
        let x = choose|x: int| 0 <= x < cm.len() && (#[trigger] cm[x]).1 == j && cm[x].0 == cur[j].path@;
        assert(mk[i] == cur[j].path@);
        lemma_sm_from_find(mk, cm[x].0);
        lemma_sm_find_hit(mm, cm[x].0, 0);
        let q = sm_find(mm, cm[x].0, 0).unwrap();
        let i2 = mm[q].1;
        assert(mk[i2] == mk[i]);
        assert(i2 == i);
        assert(changed_entry(cm, mm, cur, files, x));
    }
}


/// The overall content hash of `(path, hash)` pairs, as `compute_overall_content_hash` gives it.
pub open spec fn overall_hash(hs: Seq<(String, String)>) -> Seq<char> {
    let m = sm_from(pair_keys(hs), hs.len() as int);
    blake3_hex(hashes_in_order(m, hs, m.len() as int))
}

proof fn lemma_hashes_in_order_same(m: Seq<(Seq<char>, int)>, a: Seq<(String, String)>, b: Seq<(String, String)>, k: int)
    requires
        k <= m.len(),
        a.len() == b.len(),
        forall|x: int| 0 <= x < m.len() ==> 0 <= (#[trigger] m[x]).1 < a.len(),
        forall|i: int| 0 <= i < a.len() ==> (#[trigger] a[i]).1@ == b[i].1@,
    ensures
        hashes_in_order(m, a, k) == hashes_in_order(m, b, k),
    decreases k,
{
    if k > 0 {
        lemma_hashes_in_order_same(m, a, b, k - 1);
        assert(a[m[k - 1].1].1@ == b[m[k - 1].1].1@);
    }
}

/// The overall content hash of an index depends on the files' paths and content hashes
/// alone: two builds whose files agree on paths and hashes (each file's hash being the hash
/// of its content, whatever its modification time) record the same overall hash.
pub proof fn law_overall_hash_from_paths_and_contents(a: Seq<(String, String)>, b: Seq<(String, String)>)
    requires
        a.len() == b.len(),
        forall|i: int| 0 <= i < a.len() ==> (#[trigger] a[i]).0@ == b[i].0@ && a[i].1@ == b[i].1@,
    ensures
        overall_hash(a) == overall_hash(b),
{
    assert(pair_keys(a) =~= pair_keys(b));
    let m = sm_from(pair_keys(a), a.len() as int);
    lemma_sm_from(pair_keys(a), a.len() as int);
    lemma_hashes_in_order_same(m, a, b, m.len() as int);
}


// ---------------------------------------------------------------------------
// The vectors file header
// ---------------------------------------------------------------------------

/// The little-endian `u64` in bytes `b[i..i + 8]`.
pub open spec fn le_u64_at(b: Seq<u8>, i: int) -> int {
    b[i] + 0x100 * b[i + 1] + 0x1_0000 * b[i + 2] + 0x100_0000 * b[i + 3] + 0x1_0000_0000 * b[i
        + 4] + 0x100_0000_0000 * b[i + 5] + 0x1_0000_0000_0000 * b[i + 6] + 0x100_0000_0000_0000
        * b[i + 7]
}

/// The little-endian `u32` in bytes `b[i..i + 4]`.
pub open spec fn le_u32_at(b: Seq<u8>, i: int) -> int {
    b[i] + 0x100 * b[i + 1] + 0x1_0000 * b[i + 2] + 0x100_0000 * b[i + 3]
}

/// What the header of a vectors file (`[count: u64 LE][dim: u32 LE]`, then `count * dim`
/// little-endian `f32` values) says of the file's bytes.
#[derive(Debug, Clone, Copy, PartialEq, Eq, Structural)]
pub enum VectorsLayout {
    /// No vectors: the file is shorter than the header, or the header counts none.
    Empty,
    /// The header promises `expected` bytes, more than the file has.
    Truncated { expected: u128 },
    /// `count` vectors of `dim` values each follow the header.
    Vectors { count: u64, dim: u32 },
}

/// The layout that the header of `b` gives.
pub open spec fn vectors_layout_of(b: Seq<u8>) -> VectorsLayout {
    if b.len() < 12 {
        VectorsLayout::Empty
    } else {
        let count = le_u64_at(b, 0);
        let dim = le_u32_at(b, 8);
        if count == 0 || dim == 0 {
            VectorsLayout::Empty
        } else if b.len() < 12 + count * dim * 4 {
            VectorsLayout::Truncated { expected: (12 + count * dim * 4) as u128 }
        } else {
            VectorsLayout::Vectors { count: count as u64, dim: dim as u32 }
        }
    }
}

/// Reads the header of a vectors file and checks the file's length against it.
pub fn vectors_layout(data: &[u8]) -> (r: VectorsLayout)
    ensures
        r == vectors_layout_of(data@),
        r matches VectorsLayout::Vectors { count, dim } ==> 12 + count * dim * 4 <= data@.len(),
{
    if data.len() < 12 {
        return VectorsLayout::Empty;
    }
    let count: u64 = data[0] as u64 + 0x100 * (data[1] as u64) + 0x1_0000 * (data[2] as u64)
        + 0x100_0000 * (data[3] as u64) + 0x1_0000_0000 * (data[4] as u64) + 0x100_0000_0000 * (
    data[5] as u64) + 0x1_0000_0000_0000 * (data[6] as u64) + 0x100_0000_0000_0000 * (
    data[7] as u64);
    let dim: u32 = data[8] as u32 + 0x100 * (data[9] as u32) + 0x1_0000 * (data[10] as u32)
        + 0x100_0000 * (data[11] as u32);
    if count == 0 || dim == 0 {
        return VectorsLayout::Empty;
    }
    assert((count as int) * (dim as int) <= 0xffff_ffff_ffff_ffff * 0xffff_ffff) by (nonlinear_arith)
        requires
            count <= 0xffff_ffff_ffff_ffff,
            dim <= 0xffff_ffff,
    ;
    let needed: u128 = 12 + (count as u128) * (dim as u128) * 4;
    if (data.len() as u128) < needed {
        VectorsLayout::Truncated { expected: needed }
    } else {
        VectorsLayout::Vectors { count, dim }
    }
}

} // verus!

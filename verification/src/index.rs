//! Building the search index: which files are indexed in which order, what each file
//! contributes to the manifest, how a failed embedding batch is handled, and the manifest
//! written at the end. Reading files, embedding and writing to disk are the caller's.
use vstd::prelude::*;

use crate::chunker::{chunk_views, file_chunks, Chunk, Chunker};
use crate::config::{opt_view, Config};
use crate::outline::document_sections;
use crate::chunker::all_untitled;
use crate::paths::{relative_path, relative_to};
use crate::search::{BuildSummary, SearchError};
use crate::storage::{blake3_hash_str, blake3_hex, ChunkConfigSnapshot, ChunkEntry, FileInfo, SearchManifest, StalenessDiff};
use crate::order::{lemma_insert_sorted, sorted_by};
use crate::text::{
    chars_of, join_with, lemma_lex_irrefl, lemma_lex_trans, lex_less, lex_lt, push_str, string_of_range, strings_view,
    to_string,
};

verus! {

// ---------------------------------------------------------------------------
// Which files, in which order
// ---------------------------------------------------------------------------

/// The first position from `k` on whose relative path comes after `x`'s.
pub open spec fn first_later(s: Seq<(Seq<char>, Seq<char>)>, x: (Seq<char>, Seq<char>), k: int) -> int
    decreases s.len() - k,
{
    if k < 0 || k >= s.len() {
        s.len() as int
    } else if lex_lt(x.0, s[k].0) {
        k
    } else {
        first_later(s, x, k + 1)
    }
}

/// The pairs sorted by their first component as text, equal ones kept in order.
pub open spec fn by_relative_path(s: Seq<(Seq<char>, Seq<char>)>) -> Seq<(Seq<char>, Seq<char>)>
    decreases s.len(),
{
    if s.len() == 0 {
        s
    } else {
        let sorted = by_relative_path(s.drop_last());
        sorted.insert(first_later(sorted, s.last(), 0), s.last())
    }
}

/// `(relative path, full path)` of each walked file, as text.
pub open spec fn relative_pairs(base: Seq<char>, paths: Seq<String>) -> Seq<(Seq<char>, Seq<char>)> {
    paths.map_values(|p: String| (relative_path(base, p@), p@))
}

pub open spec fn pair_views(s: Seq<(String, String)>) -> Seq<(Seq<char>, Seq<char>)> {
    s.map_values(|p: (String, String)| (p.0@, p.1@))
}

/// The walked files (full paths under `base`) paired with their paths relative to `base` and
/// sorted by the relative path as text, so that the index is built in the same order
/// whatever order the walk gave.
pub fn files_in_index_order(base: &str, paths: &Vec<String>) -> (r: Vec<(String, String)>)
    ensures
        pair_views(r@) == by_relative_path(relative_pairs(base@, paths@)),
{
    let ghost all = relative_pairs(base@, paths@);
    let mut sorted: Vec<(String, String)> = Vec::new();
    let mut i: usize = 0;
    while i < paths.len()
        invariant
            i <= paths@.len(),
            all == relative_pairs(base@, paths@),
            pair_views(sorted@) == by_relative_path(all.take(i as int)),
        decreases paths@.len() - i,
    {
        let item = (relative_to(base, paths[i].as_str()), paths[i].clone());
        let ghost iv = (item.0@, item.1@);
        let ghost sv = pair_views(sorted@);
        assert(iv == all[i as int]);
        let key = chars_of(item.0.as_str());
        let mut p: usize = 0;
        while p < sorted.len() && !lex_less(&key, &chars_of(sorted[p].0.as_str()))
            invariant
                p <= sorted@.len(),
                key@ == item.0@,
                sv == pair_views(sorted@),
                iv == (item.0@, item.1@),
                first_later(sv, iv, 0) == first_later(sv, iv, p as int),
            decreases sorted@.len() - p,
        {
            p += 1;
        }
        proof {
            assert(all.take(i + 1).drop_last() =~= all.take(i as int));
            assert(all.take(i + 1).last() == iv);
        }
        sorted.insert(p, item);
        assert(pair_views(sorted@) =~= sv.insert(p as int, iv));
        i += 1;
    }
    assert(all.take(i as int) =~= all);
    sorted
}

// ---------------------------------------------------------------------------
// What one file contributes
// ---------------------------------------------------------------------------

/// The manifest entry describing chunk `c`.
pub open spec fn entry_of(e: ChunkEntry, c: Chunk) -> bool {
    &&& e.id == c.id
    &&& e.source_file == c.source_file
    &&& e.line_start == c.line_start
    &&& e.line_end == c.line_end
    &&& e.heading == c.heading
    &&& strings_view(e.heading_path@) == strings_view(c.heading_path@)
}

/// A file read for indexing: its manifest record, the manifest entries of its chunks, and
/// the chunks themselves (with their text).
pub struct IndexedFile {
    pub info: FileInfo,
    pub entries: Vec<ChunkEntry>,
    pub chunks: Vec<Chunk>,
}

/// Indexes one file: hashes its content, chunks it, and records both.
pub fn index_file(chunker: &Chunker, rel_path: &str, content: &str, mtime: u64) -> (r: IndexedFile)
    requires
        chunker.settings().max_tokens > 0 || !all_untitled(document_sections(content@)),
    ensures
        chunk_views(r.chunks@) == file_chunks(chunker.settings(), rel_path@, content@),
        r.info.path@ == rel_path@,
        r.info.content_hash@ == blake3_hex(content@),
        r.info.mtime == mtime,
        r.info.chunk_ids@.len() == r.chunks@.len(),
        r.entries@.len() == r.chunks@.len(),
        forall|k: int|
            0 <= k < r.chunks@.len() ==> r.info.chunk_ids@[k] == (#[trigger] r.chunks@[k]).id && entry_of(
                r.entries@[k],
                r.chunks@[k],
            ),
{
    let content_hash = blake3_hash_str(content);
    let chunks = chunker.chunk_file(rel_path, content);
    let mut chunk_ids: Vec<String> = Vec::new();
    let mut entries: Vec<ChunkEntry> = Vec::new();
    let mut k: usize = 0;
    while k < chunks.len()
        invariant
            k <= chunks@.len(),
            chunk_ids@.len() == k,
            entries@.len() == k,
            forall|i: int|
                0 <= i < k ==> chunk_ids@[i] == (#[trigger] chunks@[i]).id && entry_of(entries@[i], chunks@[i]),
        decreases chunks@.len() - k,
    {
        let c = &chunks[k];
        chunk_ids.push(c.id.clone());
        entries.push(
            ChunkEntry {
                id: c.id.clone(),
                source_file: c.source_file.clone(),
                line_start: c.line_start,
                line_end: c.line_end,
                heading: clone_opt(&c.heading),
                heading_path: clone_strings(&c.heading_path),
            },
        );
        k += 1;
    }
    IndexedFile {
        info: FileInfo { path: to_string(rel_path), content_hash, mtime, chunk_ids },
        entries,
        chunks,
    }
}

fn clone_opt(o: &Option<String>) -> (r: Option<String>)
    ensures
        r == *o,
{
    match o {
        Some(s) => Some(s.clone()),
        None => None,
    }
}

fn clone_strings(v: &Vec<String>) -> (r: Vec<String>)
    ensures
        strings_view(r@) == strings_view(v@),
{
    let mut out: Vec<String> = Vec::new();
    let mut i: usize = 0;
    while i < v.len()
        invariant
            i <= v@.len(),
            strings_view(out@) == strings_view(v@).take(i as int),
        decreases v@.len() - i,
    {
        out.push(v[i].clone());
        assert(strings_view(v@).take(i + 1) =~= strings_view(v@).take(i as int).push(v@[i as int]@));
        assert(strings_view(out@) =~= strings_view(v@).take(i + 1));
        i += 1;
    }
    assert(strings_view(v@).take(i as int) =~= strings_view(v@));
    out
}

/// The chunk ids that the manifest records for the files `removed`, file after file.
pub open spec fn ids_of_removed(files: Seq<FileInfo>, removed: Seq<String>, n: int) -> Seq<Seq<char>>
    decreases n,
{
    if n <= 0 || n > files.len() {
        seq![]
    } else {
        let rest = ids_of_removed(files, removed, n - 1);
        if exists|j: int| 0 <= j < removed.len() && (#[trigger] removed[j])@ == files[n - 1].path@ {
            rest + strings_view(files[n - 1].chunk_ids@)
        } else {
            rest
        }
    }
}

fn contains_string(v: &Vec<String>, s: &String) -> (r: bool)
    ensures
        r == exists|j: int| 0 <= j < v@.len() && (#[trigger] v@[j])@ == s@,
{
    let t = chars_of(s.as_str());
    let mut i: usize = 0;
    while i < v.len()
        invariant
            i <= v@.len(),
            t@ == s@,
            forall|j: int| 0 <= j < i ==> (#[trigger] v@[j])@ != s@,
        decreases v@.len() - i,
    {
        if crate::text::chars_eq(&chars_of(v[i].as_str()), &t) {
            return true;
        }
        i += 1;
    }
    false
}

/// The chunk ids to delete for files that disappeared since the last build.
pub fn chunk_ids_for_removed(manifest: &SearchManifest, removed: &Vec<String>) -> (r: Vec<String>)
    ensures
        strings_view(r@) == ids_of_removed(manifest.files@, removed@, manifest.files@.len() as int),
{
    let mut out: Vec<String> = Vec::new();
    let mut i: usize = 0;
    while i < manifest.files.len()
        invariant
            i <= manifest.files@.len(),
            strings_view(out@) == ids_of_removed(manifest.files@, removed@, i as int),
        decreases manifest.files@.len() - i,
    {
        let fi = &manifest.files[i];
        if contains_string(removed, &fi.path) {
            let mut k: usize = 0;
            let ghost before = strings_view(out@);
            while k < fi.chunk_ids.len()
                invariant
                    k <= fi.chunk_ids@.len(),
                    strings_view(out@) == before + strings_view(fi.chunk_ids@).take(k as int),
                decreases fi.chunk_ids@.len() - k,
            {
                let ghost prev = out@;
                out.push(fi.chunk_ids[k].clone());
                assert(strings_view(out@) =~= strings_view(prev).push(fi.chunk_ids@[k as int]@));
                assert(strings_view(fi.chunk_ids@).take(k + 1) =~= strings_view(fi.chunk_ids@).take(
                    k as int,
                ).push(fi.chunk_ids@[k as int]@));
                assert(strings_view(out@) =~= before + strings_view(fi.chunk_ids@).take(k + 1));
                k += 1;
            }
            assert(strings_view(fi.chunk_ids@).take(k as int) =~= strings_view(fi.chunk_ids@));
        }
        i += 1;
    }
    out
}

// ---------------------------------------------------------------------------
// Embedding batches
// ---------------------------------------------------------------------------

/// The last `/`-separated part of `p` from `k` back (`rsplit('/').next()`).
pub open spec fn after_last(p: Seq<char>, c: char, k: int) -> Seq<char>
    decreases k,
{
    if k <= 0 || k > p.len() {
        p
    } else if p[k - 1] == c {
        p.skip(k)
    } else {
        after_last(p, c, k - 1)
    }
}

/// The index of the last `c` in `s[..k]`, if any.
pub open spec fn last_index(s: Seq<char>, c: char, k: int) -> Option<int>
    decreases k,
{
    if k <= 0 || k > s.len() {
        None
    } else if s[k - 1] == c {
        Some(k - 1)
    } else {
        last_index(s, c, k - 1)
    }
}

/// The stem of a file name: the part before its last dot, unless the name starts with its
/// only dot or has none.
pub open spec fn stem(name: Seq<char>) -> Seq<char> {
    match last_index(name, '.', name.len() as int) {
        Some(i) => if i > 0 {
            name.take(i)
        } else {
            name
        },
        None => name,
    }
}

/// The title a chunk is embedded with: its heading path joined by ` > `, or the stem of its
/// file's name when it has no headings.
pub open spec fn chunk_title_spec(c: Chunk) -> Seq<char> {
    if c.heading_path@.len() > 0 {
        join_with(strings_view(c.heading_path@), seq![' ', '>', ' '])
    } else {
        stem(after_last(c.source_file@, '/', c.source_file@.len() as int))
    }
}

/// The title a chunk is embedded with (see `chunk_title_spec`).
pub fn chunk_title(chunk: &Chunk) -> (r: Option<String>)
    ensures
        r matches Some(t) && t@ == chunk_title_spec(*chunk),
{
    if chunk.heading_path.len() > 0 {
        let mut s = String::new();
        let mut i: usize = 0;
        let ghost ws = strings_view(chunk.heading_path@);
        while i < chunk.heading_path.len()
            invariant
                0 < chunk.heading_path@.len(),
                i <= chunk.heading_path@.len(),
                ws == strings_view(chunk.heading_path@),
                i > 0 ==> s@ == join_with(ws.take(i as int), seq![' ', '>', ' ']),
                i == 0 ==> s@.len() == 0,
            decreases chunk.heading_path@.len() - i,
        {
            if i > 0 {
                push_str(&mut s, " > ");
                proof {
                    reveal_strlit(" > ");
                }
            }
            push_str(&mut s, chunk.heading_path[i].as_str());
            proof {
                assert(ws.take(i + 1).drop_last() =~= ws.take(i as int));
                if i == 0 {
                    assert(join_with(ws.take(1), seq![' ', '>', ' ']) =~= ws[0]);
                }
            }
            i += 1;
        }
        assert(ws.take(i as int) =~= ws);
        return Some(s);
    }
    let v = chars_of(chunk.source_file.as_str());
    let mut k = v.len();
    while k > 0 && v[k - 1] != '/'
        invariant
            k <= v@.len(),
            v@ == chunk.source_file@,
            after_last(v@, '/', v@.len() as int) == after_last(v@, '/', k as int),
        decreases k,
    {
        k -= 1;
    }
    let ghost name = after_last(v@, '/', v@.len() as int);
    assert(name =~= v@.subrange(k as int, v@.len() as int));
    let mut d = v.len();
    while d > k && v[d - 1] != '.'
        invariant
            k <= d <= v@.len(),
            name == v@.subrange(k as int, v@.len() as int),
            last_index(name, '.', name.len() as int) == last_index(name, '.', d - k),
        decreases d,
    {
        d -= 1;
    }
    let end = if d - k > 1 { d - 1 } else { v.len() };
    let r = string_of_range(&v, k, end);
    proof {
        if d - k > 1 {
            assert(name.take(d - k - 1) =~= v@.subrange(k as int, end as int));
        }
    }
    Some(r)
}

/// What to do after embedding a batch.
pub enum EmbedStep {
    /// Write the vectors (starting the vector file first when `start`).
    Write { start: bool },
    /// The first embedding failed: go on without dense embeddings.
    Degrade,
    /// A later embedding failed after earlier ones succeeded: stop the build.
    Fail,
}

/// Decides on an embedded batch: vectors are written; a failure degrades the build to no
/// embeddings when nothing was written yet, else it is an error.
pub fn embed_step(writer_started: bool, embedded: bool) -> (r: EmbedStep)
    ensures
        embedded ==> r == (EmbedStep::Write { start: !writer_started }),
        !embedded && !writer_started ==> r == EmbedStep::Degrade,
        !embedded && writer_started ==> r == EmbedStep::Fail,
{
    if embedded {
        EmbedStep::Write { start: !writer_started }
    } else if writer_started {
        EmbedStep::Fail
    } else {
        EmbedStep::Degrade
    }
}

pub open spec fn no_vectors_message() -> Seq<char> {
    seq![
        'e', 'm', 'b', 'e', 'd', 'd', 'i', 'n', 'g', ' ', 'e', 'n', 'd', 'p', 'o', 'i', 'n', 't', ' ',
        'r', 'e', 't', 'u', 'r', 'n', 'e', 'd', ' ', 'n', 'o', ' ', 'v', 'e', 'c', 't', 'o', 'r', 's',
        ' ', 'f', 'o', 'r', ' ', 'a', ' ', 'n', 'o', 'n', '-', 'e', 'm', 'p', 't', 'y', ' ', 'b', 'a',
        't', 'c', 'h',
    ]
}

/// The dimension of the vector file, from the length of the first vector of the first
/// embedded batch (cut to 32 bits as the file header stores it).
pub fn vector_dim(first_len: Option<usize>) -> (r: Result<u32, SearchError>)
    ensures
        match first_len {
            Some(n) => r == Ok::<u32, SearchError>(n as u32),
            None => r matches Err(SearchError::Other(m)) && m@ == no_vectors_message(),
        },
{
    match first_len {
        Some(n) => Ok(n as u32),
        None => {
            let m = to_string("embedding endpoint returned no vectors for a non-empty batch");
            proof {
                reveal_strlit("embedding endpoint returned no vectors for a non-empty batch");
            }
            assert(m@ =~= no_vectors_message());
            Err(SearchError::Other(m))
        },
    }
}

// ---------------------------------------------------------------------------
// The manifest at the end of a build
// ---------------------------------------------------------------------------

/// The summary of an index that needed no change.
pub fn up_to_date_summary(manifest: &SearchManifest) -> (r: BuildSummary)
    ensures
        r.files_indexed == manifest.files@.len(),
        r.chunks_produced == manifest.chunks@.len(),
        r.has_embeddings == manifest.has_embeddings,
        r.content_hash@ == manifest.content_hash@,
{
    BuildSummary {
        files_indexed: manifest.document_count(),
        chunks_produced: manifest.chunk_count(),
        has_embeddings: manifest.has_embeddings,
        content_hash: manifest.content_hash.clone(),
    }
}

/// Records a finished build in the manifest (settings from `config`, the files and chunks
/// indexed, the overall hash and time) and summarises it.
pub fn finish_build(
    manifest: &mut SearchManifest,
    config: &Config,
    files: Vec<FileInfo>,
    chunks: Vec<ChunkEntry>,
    content_hash: String,
    last_indexed: String,
    has_embeddings: bool,
) -> (r: BuildSummary)
    ensures
        final(manifest).version == old(manifest).version,
        final(manifest).model_id@ == config.search.model_id@,
        final(manifest).embedding_dim == config.search.embedding_dim,
        final(manifest).chunk_config == (ChunkConfigSnapshot {
            max_tokens: config.search.max_seq_tokens,
            overlap_tokens: config.search.chunk_overlap_tokens,
            min_chunk_size: config.search.min_chunk_tokens,
            merge_threshold: config.search.merge_threshold,
        }),
        final(manifest).files@ == files@,
        final(manifest).chunks@ == chunks@,
        final(manifest).content_hash == content_hash,
        final(manifest).last_indexed == Some(last_indexed),
        final(manifest).has_embeddings == has_embeddings,
        opt_view(final(manifest).embedding_api_base) == opt_view(config.search.embedding_api_base),
        r.files_indexed == files@.len(),
        r.chunks_produced == chunks@.len(),
        r.has_embeddings == has_embeddings,
        r.content_hash == content_hash,
{
    let summary = BuildSummary {
        files_indexed: files.len(),
        chunks_produced: chunks.len(),
        has_embeddings,
        content_hash: content_hash.clone(),
    };
    manifest.model_id = config.search.model_id.clone();
    manifest.embedding_dim = config.search.embedding_dim;
    manifest.chunk_config = ChunkConfigSnapshot {
        max_tokens: config.search.max_seq_tokens,
        overlap_tokens: config.search.chunk_overlap_tokens,
        min_chunk_size: config.search.min_chunk_tokens,
        merge_threshold: config.search.merge_threshold,
    };
    manifest.embedding_api_base = match &config.search.embedding_api_base {
        Some(b) => Some(b.clone()),
        None => None,
    };
    manifest.files = files;
    manifest.chunks = chunks;
    manifest.content_hash = content_hash;
    manifest.last_indexed = Some(last_indexed);
    manifest.has_embeddings = has_embeddings;
    summary
}


proof fn lemma_first_later(s: Seq<(Seq<char>, Seq<char>)>, x: (Seq<char>, Seq<char>), k: int)
    requires
        0 <= k <= s.len(),
        forall|j: int| 0 <= j < k ==> !lex_lt(x.0, (#[trigger] s[j]).0),
    ensures
        k <= first_later(s, x, k) <= s.len(),
        forall|j: int| 0 <= j < first_later(s, x, k) ==> !lex_lt(x.0, (#[trigger] s[j]).0),
        first_later(s, x, k) < s.len() ==> lex_lt(x.0, s[first_later(s, x, k)].0),
    decreases s.len() - k,
{
    if k < s.len() && !lex_lt(x.0, s[k].0) {
        lemma_first_later(s, x, k + 1);
    }
}

/// Files are indexed in ascending order of their relative paths as text, each walked file
/// exactly once.
pub proof fn law_index_order(s: Seq<(Seq<char>, Seq<char>)>)
    ensures
        forall|i: int, j: int|
            0 <= i < j < by_relative_path(s).len() ==> !lex_lt(
                (#[trigger] by_relative_path(s)[j]).0,
                (#[trigger] by_relative_path(s)[i]).0,
            ),
        by_relative_path(s).to_multiset() == s.to_multiset(),
    decreases s.len(),
{
    broadcast use vstd::seq_lib::group_to_multiset_ensures;
    let before = |a: (Seq<char>, Seq<char>), b: (Seq<char>, Seq<char>)| lex_lt(a.0, b.0);
    if s.len() == 0 {
        assert(s.to_multiset() =~= vstd::multiset::Multiset::empty());
    } else {
        let rest = s.drop_last();
        law_index_order(rest);
        let sorted = by_relative_path(rest);
        assert(sorted_by(sorted, before));
        lemma_first_later(sorted, s.last(), 0);
        assert forall|a: (Seq<char>, Seq<char>)| !#[trigger] before(a, a) by {
            lemma_lex_irrefl(a.0);
        }
        assert forall|a: (Seq<char>, Seq<char>), b: (Seq<char>, Seq<char>), c: (Seq<char>, Seq<char>)|
            #[trigger] before(a, b) && #[trigger] before(b, c) implies before(a, c) by {
            lemma_lex_trans(a.0, b.0, c.0);
        }
        lemma_insert_sorted(sorted, s.last(), first_later(sorted, s.last(), 0), before);
        assert(rest.push(s.last()) =~= s);
        let t = by_relative_path(s);
        assert(sorted_by(t, before));
        assert forall|i: int, j: int| 0 <= i < j < t.len() implies !lex_lt((#[trigger] t[j]).0, (#[trigger] t[i]).0) by {
            assert(!before(t[j], t[i]));
        }
    }
}


/// Chunks persisted (and embedded) together in one batch.
pub const BATCH_SIZE: usize = 32;

/// Whether the pending chunks make a full batch that is flushed now.
pub fn batch_is_full(pending: usize) -> (r: bool)
    ensures
        r == (pending >= BATCH_SIZE),
{
    pending >= BATCH_SIZE
}

/// What a build does to the stored index before it indexes the files.
pub enum IndexReset {
    /// The index is current: the build stops and reports it.
    Keep,
    /// A full rebuild: all chunk texts and the vectors are removed.
    ClearAll,
    /// An incremental update: the chunks of these removed files are deleted (possibly none).
    RemoveChunks(Vec<String>),
}

/// The reaction of a build to the staleness of the index: keep it when up to date, clear it
/// for a full rebuild, else remove the chunks of the removed files (none when no file was
/// removed).
pub fn index_reset(diff: &StalenessDiff, manifest: &SearchManifest) -> (r: IndexReset)
    ensures
        match *diff {
            StalenessDiff::UpToDate => r is Keep,
            StalenessDiff::FullRebuild(_) => r is ClearAll,
            StalenessDiff::Incremental { removed, .. } => r matches IndexReset::RemoveChunks(ids)
                && strings_view(ids@) == (if removed@.len() == 0 {
                    seq![]
                } else {
                    ids_of_removed(manifest.files@, removed@, manifest.files@.len() as int)
                }),
        },
{
    match diff {
        StalenessDiff::UpToDate => IndexReset::Keep,
        StalenessDiff::FullRebuild(_) => IndexReset::ClearAll,
        StalenessDiff::Incremental { removed, .. } => {
            if removed.len() == 0 {
                assert(strings_view(Seq::<String>::empty()) =~= seq![]);
                IndexReset::RemoveChunks(Vec::new())
            } else {
                IndexReset::RemoveChunks(chunk_ids_for_removed(manifest, removed))
            }
        },
    }
}

} // verus!

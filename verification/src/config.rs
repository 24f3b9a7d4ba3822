//! Vault configuration: path exclusions, daily-note patterns and search settings, with the
//! defaults and the environment overrides that the tool applies.
use vstd::prelude::*;

use crate::paths::{join_path, push_path};
use crate::text::{
    chars_of, contains_chars, contains_seq, lowercase, strings_view, to_lowercase, to_string,
    split_trimmed, trimmed_items, all_digits, digits_value, parse_digits,
};

verus! {

// ---------------------------------------------------------------------------
// Defaults
// ---------------------------------------------------------------------------

pub open spec fn spec_default_daily_note_patterns() -> Seq<Seq<char>> {
    seq![
        seq!['Y', 'Y', 'Y', 'Y', '-', 'M', 'M', '-', 'D', 'D', '.', 'm', 'd'],
        seq![
            '0', '.', ' ', 'P', 'e', 'r', 'i', 'o', 'd', 'i', 'c', 'N', 'o', 't', 'e', 's', '/',
            'Y', 'Y', 'Y', 'Y', '/', 'D', 'a', 'i', 'l', 'y', '/', 'M', 'M', '/', 'Y', 'Y',
            'Y', 'Y', '-', 'M', 'M', '-', 'D', 'D', '.', 'm', 'd',
        ],
    ]
}

pub fn default_daily_note_patterns() -> (r: Vec<String>)
    ensures
        strings_view(r@) == spec_default_daily_note_patterns(),
{
    let a = to_string("YYYY-MM-DD.md");
    let b = to_string("0. PeriodicNotes/YYYY/Daily/MM/YYYY-MM-DD.md");
    proof {
        reveal_strlit("YYYY-MM-DD.md");
        reveal_strlit("0. PeriodicNotes/YYYY/Daily/MM/YYYY-MM-DD.md");
    }
    assert(a@ =~= spec_default_daily_note_patterns()[0]);
    assert(b@ =~= spec_default_daily_note_patterns()[1]);
    let mut v: Vec<String> = Vec::new();
    v.push(a);
    v.push(b);
    assert(strings_view(v@) =~= seq![v@[0]@, v@[1]@]);
    assert(strings_view(v@) =~= spec_default_daily_note_patterns());
    v
}

pub open spec fn spec_default_cache_dir() -> Seq<char> {
    seq!['.', 'n', 'o', 't', 'e', 'c', 't', 'l', '/', 's', 'e', 'a', 'r', 'c', 'h']
}

pub fn default_cache_dir() -> (r: String)
    ensures
        r@ == spec_default_cache_dir(),
{
    let s = to_string(".notectl/search");
    proof {
        reveal_strlit(".notectl/search");
    }
    assert(s@ =~= spec_default_cache_dir());
    s
}

pub fn default_embedding_dim() -> (r: u32)
    ensures
        r == 256,
{
    256
}

pub fn default_max_seq_tokens() -> (r: usize)
    ensures
        r == 512,
{
    512
}

pub fn default_chunk_overlap_tokens() -> (r: usize)
    ensures
        r == 64,
{
    64
}

pub fn default_min_chunk_tokens() -> (r: usize)
    ensures
        r == 32,
{
    32
}

pub fn default_max_results() -> (r: usize)
    ensures
        r == 50,
{
    50
}

pub fn default_merge_threshold() -> (r: usize)
    ensures
        r == 30,
{
    30
}

pub open spec fn spec_default_model_id() -> Seq<char> {
    seq![
        'g', 'o', 'o', 'g', 'l', 'e', '/', 'e', 'm', 'b', 'e', 'd', 'd', 'i', 'n', 'g', '-', 'g',
        'e', 'm', 'm', 'a', '-', '3', '0', '0', 'm',
    ]
}

pub fn default_model_id() -> (r: String)
    ensures
        r@ == spec_default_model_id(),
{
    let s = to_string("google/embedding-gemma-300m");
    proof {
        reveal_strlit("google/embedding-gemma-300m");
    }
    assert(s@ =~= spec_default_model_id());
    s
}

// ---------------------------------------------------------------------------
// Search configuration
// ---------------------------------------------------------------------------

/// Search settings. The reciprocal-rank-fusion parameters, which are floating-point, are kept
/// by the caller beside this value.
#[derive(Debug, Clone)]
pub struct SearchConfig {
    /// Model ID for dense embeddings (e.g., "google/embedding-gemma-300m")
    pub model_id: String,
    /// Model revision/tag
    pub model_revision: Option<String>,
    /// Embedding dimension (for matryoshka truncation)
    pub embedding_dim: u32,
    /// Maximum sequence tokens for chunking
    pub max_seq_tokens: usize,
    /// Token overlap between adjacent chunks
    pub chunk_overlap_tokens: usize,
    /// Minimum tokens per chunk before merging forward
    pub min_chunk_tokens: usize,
    /// Optional dense model weights path
    pub dense_weights: Option<String>,
    /// Optional sparse model weights path
    pub sparse_weights: Option<String>,
    /// Cache directory for search index and model weights
    pub cache_dir: String,
    /// Maximum number of results to return from a search query
    pub max_results: usize,
    /// Merge tiny sections into the next one if below this threshold (token count)
    pub merge_threshold: usize,
    /// Heading patterns to exclude from indexing (case-insensitive substring match).
    pub exclude_headings: Vec<String>,
    /// Base URL of an OpenAI-compatible embeddings endpoint; `None` means keyword search only.
    pub embedding_api_base: Option<String>,
    /// Optional bearer token for the embedding endpoint.
    pub embedding_api_key: Option<String>,
}

impl SearchConfig {
    /// The defaults that a configuration file may override.
    pub open spec fn is_default(&self) -> bool {
        &&& self.model_id@ == spec_default_model_id()
        &&& self.model_revision is None
        &&& self.embedding_dim == 256
        &&& self.max_seq_tokens == 512
        &&& self.chunk_overlap_tokens == 64
        &&& self.min_chunk_tokens == 32
        &&& self.dense_weights is None
        &&& self.sparse_weights is None
        &&& self.cache_dir@ == spec_default_cache_dir()
        &&& self.max_results == 50
        &&& self.merge_threshold == 30
        &&& self.exclude_headings@.len() == 0
        &&& self.embedding_api_base is None
        &&& self.embedding_api_key is None
    }

    pub fn new_default() -> (r: Self)
        ensures
            r.is_default(),
    {
        SearchConfig {
            model_id: default_model_id(),
            model_revision: None,
            embedding_dim: default_embedding_dim(),
            max_seq_tokens: default_max_seq_tokens(),
            chunk_overlap_tokens: default_chunk_overlap_tokens(),
            min_chunk_tokens: default_min_chunk_tokens(),
            dense_weights: None,
            sparse_weights: None,
            cache_dir: default_cache_dir(),
            max_results: default_max_results(),
            merge_threshold: default_merge_threshold(),
            exclude_headings: Vec::new(),
            embedding_api_base: None,
            embedding_api_key: None,
        }
    }

    /// Whether `title` contains one of `exclude_headings`, ignoring case.
    pub open spec fn spec_should_exclude_heading(&self, title: Seq<char>) -> bool {
        exists|i: int|
            0 <= i < self.exclude_headings@.len() && contains_seq(
                lowercase(title),
                lowercase(#[trigger] self.exclude_headings@[i]@),
            )
    }

    /// Check if a heading title matches any exclusion pattern (case-insensitive substring).
    pub fn should_exclude_heading(&self, title: &str) -> (r: bool)
        ensures
            r == self.spec_should_exclude_heading(title@),
    {
        let lower = to_lowercase(title);
        let lv = chars_of(lower.as_str());
        let mut i: usize = 0;
        while i < self.exclude_headings.len()
            invariant
                i <= self.exclude_headings@.len(),
                lv@ == lowercase(title@),
                forall|j: int|
                    0 <= j < i ==> !contains_seq(
                        lowercase(title@),
                        lowercase(#[trigger] self.exclude_headings@[j]@),
                    ),
            decreases self.exclude_headings.len() - i,
        {
            let lp = to_lowercase(self.exclude_headings[i].as_str());
            let pv = chars_of(lp.as_str());
            if contains_chars(&lv, &pv) {
                return true;
            }
            i += 1;
        }
        false
    }
}

impl Default for SearchConfig {
    fn default() -> (r: Self)
        ensures
            r.is_default(),
    {
        SearchConfig::new_default()
    }
}

// ---------------------------------------------------------------------------
// Exclusion patterns
// ---------------------------------------------------------------------------

/// Whether `text` matches the glob `pattern`; `None` when `pattern` is not a valid glob.
pub uninterp spec fn glob_match(pattern: Seq<char>, text: Seq<char>) -> Option<bool>;

/// `glob::Pattern::new(pattern)` and, when it compiles, `Pattern::matches(text)`. The
/// contract names the outcome (`glob_match`) and states nothing of its value.
#[verifier::external_body]
pub(crate) fn glob_matches(pattern: &str, text: &str) -> (r: Option<bool>)
    ensures
        r == glob_match(pattern@, text@),
{
    match glob::Pattern::new(pattern) {
        Ok(p) => Some(p.matches(text)),
        Err(_) => None,
    }
}

/// A path is excluded when one of `patterns` matches it as a glob or occurs in it.
pub open spec fn excluded_by(patterns: Seq<String>, path: Seq<char>) -> bool {
    exists|i: int|
        0 <= i < patterns.len() && (glob_match(#[trigger] patterns[i]@, path) == Some(true)
            || contains_seq(path, patterns[i]@))
}

/// Whether `path` is excluded by one of `patterns`.
pub fn path_excluded(patterns: &Vec<String>, path: &str) -> (r: bool)
    ensures
        r == excluded_by(patterns@, path@),
{
    let pv = chars_of(path);
    let mut i: usize = 0;
    while i < patterns.len()
        invariant
            i <= patterns@.len(),
            pv@ == path@,
            forall|j: int|
                0 <= j < i ==> !(glob_match(#[trigger] patterns@[j]@, path@) == Some(true)
                    || contains_seq(path@, patterns@[j]@)),
        decreases patterns.len() - i,
    {
        let pat = patterns[i].as_str();
        if let Some(true) = glob_matches(pat, path) {
            return true;
        }
        let tv = chars_of(pat);
        if contains_chars(&pv, &tv) {
            return true;
        }
        i += 1;
    }
    false
}

// ---------------------------------------------------------------------------
// Configuration
// ---------------------------------------------------------------------------

#[derive(Debug, Clone)]
pub struct Config {
    pub exclude_paths: Vec<String>,
    pub daily_note_patterns: Vec<String>,
    pub search: SearchConfig,
}

/// The value of a `usize` (or `u32`) setting: digits with an optional `+`, within `max`.
pub open spec fn parse_uint_spec(s: Seq<char>, max: int) -> Option<nat> {
    let t = if s.len() > 0 && s[0] == '+' { s.drop_first() } else { s };
    if t.len() > 0 && all_digits(t) && digits_value(t) <= max {
        Some(digits_value(t))
    } else {
        None
    }
}

/// `s.parse::<uint>().ok()` for an unsigned type whose largest value is `max`.
pub fn parse_uint(s: &str, max: u64) -> (r: Option<u64>)
    ensures
        match parse_uint_spec(s@, max as int) {
            Some(n) => r == Some(n as u64),
            None => r is None,
        },
{
    let v = chars_of(s);
    let lo: usize = if v.len() > 0 && v[0] == '+' { 1 } else { 0 };
    proof {
        if lo == 1 {
            assert(v@.subrange(1, v@.len() as int) =~= v@.drop_first());
        } else {
            assert(v@.subrange(0, v@.len() as int) =~= v@);
        }
    }
    if lo == v.len() {
        return None;
    }
    parse_digits(&v, lo, v.len(), max)
}

/// Search settings read from `NOTECTL_SEARCH_*` environment variables (raw text, `None` when
/// unset). The floating-point fusion settings are not part of it.
pub struct SearchEnv {
    pub model_id: Option<String>,
    pub model_revision: Option<String>,
    pub embedding_dim: Option<String>,
    pub max_seq_tokens: Option<String>,
    pub chunk_overlap_tokens: Option<String>,
    pub min_chunk_tokens: Option<String>,
    pub merge_threshold: Option<String>,
    pub dense_weights: Option<String>,
    pub sparse_weights: Option<String>,
    pub cache_dir: Option<String>,
    pub max_results: Option<String>,
    pub exclude_headings: Option<String>,
    pub embedding_api_base: Option<String>,
    pub embedding_api_key: Option<String>,
}

/// A text setting: replaced when the variable is set.
pub open spec fn text_setting(old: Seq<char>, var: Option<String>) -> Seq<char> {
    match var {
        Some(v) => v@,
        None => old,
    }
}

/// A numeric setting: replaced when the variable is set and parses.
pub open spec fn num_setting(old: int, var: Option<String>, max: int) -> int {
    match var {
        Some(v) => match parse_uint_spec(v@, max) {
            Some(n) => n as int,
            None => old,
        },
        None => old,
    }
}

/// An optional setting: set when the variable is set.
pub open spec fn opt_setting(old: Option<String>, var: Option<String>) -> Option<Seq<char>> {
    match var {
        Some(v) => Some(v@),
        None => match old {
            Some(o) => Some(o@),
            None => None,
        },
    }
}

pub open spec fn opt_view(o: Option<String>) -> Option<Seq<char>> {
    match o {
        Some(s) => Some(s@),
        None => None,
    }
}

/// A comma-separated list: its non-empty trimmed items are appended when the variable is set.
pub open spec fn list_setting(old: Seq<String>, var: Option<String>) -> Seq<Seq<char>> {
    match var {
        Some(v) => strings_view(old) + trimmed_items(v@, ','),
        None => strings_view(old),
    }
}

fn apply_usize(old: usize, var: &Option<String>) -> (r: usize)
    ensures
        r == num_setting(old as int, *var, usize::MAX as int),
{
    match var {
        Some(v) => match parse_uint(v.as_str(), usize::MAX as u64) {
            Some(n) => n as usize,
            None => old,
        },
        None => old,
    }
}

pub(crate) fn append_items(list: &mut Vec<String>, var: &Option<String>)
    ensures
        strings_view(final(list)@) == list_setting(old(list)@, *var),
{
    if let Some(v) = var {
        let items = split_trimmed(v.as_str(), ',');
        let mut k: usize = 0;
        let ghost start = list@;
        while k < items.len()
            invariant
                k <= items@.len(),
                strings_view(list@) == strings_view(start) + strings_view(items@).take(k as int),
            decreases items.len() - k,
        {
            let ghost before = list@;
            let item = items[k].clone();
            list.push(item);
            assert(strings_view(list@) =~= strings_view(before).push(item@));
            assert(strings_view(items@).take(k + 1) =~= strings_view(items@).take(k as int).push(
                items@[k as int]@,
            ));
            k += 1;
        }
        assert(strings_view(items@).take(k as int) =~= strings_view(items@));
    }
}

impl Config {
    pub fn new_default() -> (r: Self)
        ensures
            r.exclude_paths@.len() == 0,
            strings_view(r.daily_note_patterns@) == spec_default_daily_note_patterns(),
            r.search.is_default(),
    {
        Config {
            exclude_paths: Vec::new(),
            daily_note_patterns: default_daily_note_patterns(),
            search: SearchConfig::new_default(),
        }
    }

    /// Check if a given path should be excluded based on configured patterns: a pattern
    /// excludes the path when it matches it as a glob or occurs in it as text.
    pub fn should_exclude(&self, path: &str) -> (r: bool)
        ensures
            r == excluded_by(self.exclude_paths@, path@),
    {
        path_excluded(&self.exclude_paths, path)
    }

    /// Merges the comma-separated exclusion and daily-note pattern lists read from the
    /// environment (`NOTECTL_EXCLUDE_PATHS`, `NOTECTL_DAILY_NOTE_PATTERNS`).
    pub fn merge_from_env(&mut self, exclude_paths: &Option<String>, daily_note_patterns: &Option<String>)
        ensures
            strings_view(final(self).exclude_paths@) == list_setting(old(self).exclude_paths@, *exclude_paths),
            strings_view(final(self).daily_note_patterns@) == list_setting(
                old(self).daily_note_patterns@,
                *daily_note_patterns,
            ),
            final(self).search == old(self).search,
    {
        append_items(&mut self.exclude_paths, exclude_paths);
        append_items(&mut self.daily_note_patterns, daily_note_patterns);
    }

    /// Merges the search settings read from the environment. Unparsable numbers leave a
    /// setting as it was.
    pub fn merge_search_from_env(&mut self, env: &SearchEnv)
        ensures
            final(self).exclude_paths == old(self).exclude_paths,
            final(self).daily_note_patterns == old(self).daily_note_patterns,
            final(self).search.model_id@ == text_setting(old(self).search.model_id@, env.model_id),
            opt_view(final(self).search.model_revision) == opt_setting(
                old(self).search.model_revision,
                env.model_revision,
            ),
            final(self).search.embedding_dim as int == num_setting(
                old(self).search.embedding_dim as int,
                env.embedding_dim,
                u32::MAX as int,
            ),
            final(self).search.max_seq_tokens as int == num_setting(
                old(self).search.max_seq_tokens as int,
                env.max_seq_tokens,
                usize::MAX as int,
            ),
            final(self).search.chunk_overlap_tokens as int == num_setting(
                old(self).search.chunk_overlap_tokens as int,
                env.chunk_overlap_tokens,
                usize::MAX as int,
            ),
            final(self).search.min_chunk_tokens as int == num_setting(
                old(self).search.min_chunk_tokens as int,
                env.min_chunk_tokens,
                usize::MAX as int,
            ),
            final(self).search.merge_threshold as int == num_setting(
                old(self).search.merge_threshold as int,
                env.merge_threshold,
                usize::MAX as int,
            ),
            opt_view(final(self).search.dense_weights) == opt_setting(
                old(self).search.dense_weights,
                env.dense_weights,
            ),
            opt_view(final(self).search.sparse_weights) == opt_setting(
                old(self).search.sparse_weights,
                env.sparse_weights,
            ),
            final(self).search.cache_dir@ == text_setting(old(self).search.cache_dir@, env.cache_dir),
            final(self).search.max_results as int == num_setting(
                old(self).search.max_results as int,
                env.max_results,
                usize::MAX as int,
            ),
            strings_view(final(self).search.exclude_headings@) == list_setting(
                old(self).search.exclude_headings@,
                env.exclude_headings,
            ),
            opt_view(final(self).search.embedding_api_base) == opt_setting(
                old(self).search.embedding_api_base,
                env.embedding_api_base,
            ),
            opt_view(final(self).search.embedding_api_key) == opt_setting(
                old(self).search.embedding_api_key,
                env.embedding_api_key,
            ),
    {
        if let Some(v) = &env.model_id {
            self.search.model_id = v.clone();
        }
        if let Some(v) = &env.model_revision {
            self.search.model_revision = Some(v.clone());
        }
        if let Some(v) = &env.embedding_dim {
            if let Some(n) = parse_uint(v.as_str(), 0xffff_ffff) {
                self.search.embedding_dim = n as u32;
            }
        }
        self.search.max_seq_tokens = apply_usize(self.search.max_seq_tokens, &env.max_seq_tokens);
        self.search.chunk_overlap_tokens = apply_usize(
            self.search.chunk_overlap_tokens,
            &env.chunk_overlap_tokens,
        );
        self.search.min_chunk_tokens = apply_usize(
            self.search.min_chunk_tokens,
            &env.min_chunk_tokens,
        );
        self.search.merge_threshold = apply_usize(self.search.merge_threshold, &env.merge_threshold);
        if let Some(v) = &env.dense_weights {
            self.search.dense_weights = Some(v.clone());
        }
        if let Some(v) = &env.sparse_weights {
            self.search.sparse_weights = Some(v.clone());
        }
        if let Some(v) = &env.cache_dir {
            self.search.cache_dir = v.clone();
        }
        self.search.max_results = apply_usize(self.search.max_results, &env.max_results);
        append_items(&mut self.search.exclude_headings, &env.exclude_headings);
        if let Some(v) = &env.embedding_api_base {
            self.search.embedding_api_base = Some(v.clone());
        }
        if let Some(v) = &env.embedding_api_key {
            self.search.embedding_api_key = Some(v.clone());
        }
    }
}

impl Default for Config {
    fn default() -> (r: Self)
        ensures
            r.exclude_paths@.len() == 0,
            strings_view(r.daily_note_patterns@) == spec_default_daily_note_patterns(),
            r.search.is_default(),
    {
        Config::new_default()
    }
}


/// The index directory under `base_path`: the cache directory itself when it is absolute,
/// else joined to `base_path`.
pub open spec fn index_dir_of(cache_dir: Seq<char>, base_path: Seq<char>) -> Seq<char> {
    if cache_dir.len() > 0 && cache_dir[0] == '/' {
        cache_dir
    } else {
        join_path(base_path, cache_dir)
    }
}

impl SearchConfig {
    /// Returns the resolved index/cache directory path relative to a base path.
    /// If `cache_dir` is absolute, returns it as-is; otherwise joins it to `base_path`.
    pub fn resolve_index_dir(&self, base_path: &str) -> (r: String)
        ensures
            r@ == index_dir_of(self.cache_dir@, base_path@),
    {
        let c = chars_of(self.cache_dir.as_str());
        if c.len() > 0 && c[0] == '/' {
            return self.cache_dir.clone();
        }
        let mut p = to_string(base_path);
        push_path(&mut p, self.cache_dir.as_str());
        p
    }
}


/// The pattern `pat` excludes `path`: it matches it as a glob or occurs in it.
pub open spec fn pattern_excludes(pat: Seq<char>, path: Seq<char>) -> bool {
    glob_match(pat, path) == Some(true) || contains_seq(path, pat)
}

/// Exclusions from the configuration file and from the environment are merged: after
/// `merge_from_env`, a path is excluded exactly when a pattern of the file excludes it or
/// one of the items of `NOTECTL_EXCLUDE_PATHS` does.
pub proof fn law_exclusions_are_merged(before: Seq<String>, after: Seq<String>, var: Option<String>, path: Seq<char>)
    requires
        strings_view(after) == list_setting(before, var),
    ensures
        excluded_by(after, path) <==> excluded_by(before, path) || match var {
            Some(v) => exists|k: int|
                0 <= k < trimmed_items(v@, ',').len() && pattern_excludes(
                    #[trigger] trimmed_items(v@, ',')[k],
                    path,
                ),
            None => false,
        },
{
    let n = before.len();
    let sa = strings_view(after);
    let sb = strings_view(before);
    assert(sa.len() == after.len() && sb.len() == n);
    assert forall|i: int| 0 <= i < after.len() implies (#[trigger] after[i])@ == sa[i] && (i < n
        ==> sa[i] == sb[i] && sb[i] == before[i]@) && (i >= n ==> var is Some && sa[i] == trimmed_items(
        var->0@,
        ',',
    )[i - n]) by {
        match var {
            Some(v) => {
                assert(sa == sb + trimmed_items(v@, ','));
            },
            None => {},
        }
    }
    if excluded_by(after, path) {
        let i = choose|i: int|
            0 <= i < after.len() && (glob_match(#[trigger] after[i]@, path) == Some(true) || contains_seq(path, after[i]@));
        if i < n {
            assert(after[i]@ == before[i]@);
            assert(glob_match(before[i]@, path) == Some(true) || contains_seq(path, before[i]@));
        } else {
            let v = var->0;
            assert(pattern_excludes(trimmed_items(v@, ',')[i - n], path));
        }
    }
    if excluded_by(before, path) {
        let i = choose|i: int|
            0 <= i < n && (glob_match(#[trigger] before[i]@, path) == Some(true) || contains_seq(path, before[i]@));
        assert(after[i]@ == before[i]@);
        assert(glob_match(after[i]@, path) == Some(true) || contains_seq(path, after[i]@));
    }
    if var is Some {
        let v = var->0;
        if exists|k: int| 0 <= k < trimmed_items(v@, ',').len() && pattern_excludes(#[trigger] trimmed_items(v@, ',')[k], path) {
            let k = choose|k: int| 0 <= k < trimmed_items(v@, ',').len() && pattern_excludes(#[trigger] trimmed_items(v@, ',')[k], path);
            assert(after[n + k]@ == trimmed_items(v@, ',')[k]);
            assert(glob_match(after[n + k]@, path) == Some(true) || contains_seq(path, after[n + k]@));
        }
    }
}

} // verus!

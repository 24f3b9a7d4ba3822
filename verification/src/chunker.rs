//! Splitting markdown files into search chunks along their outline sections: tiny sections
//! are merged into the next one, long ones split into overlapping windows of words, and each
//! chunk records the lines it spans and the headings above it.
use vstd::prelude::*;

use crate::config::SearchConfig;
use crate::outline::{
    chunk_section_at, document_sections, lemma_entries_bounds, lemma_entries_increasing,
    lemma_next_at_or_above_bounds, next_at_or_above, outline_entries, section_body, section_end, section_is, sections_are, OutlineExtractor, Section,
};
use crate::text::{
    is_ws, is_whitespace, chars_of, decimal, join_ranges, join_with, lemma_line_ranges_bounds, lemma_next_newline,
    line_ranges, line_ranges_from, line_ranges_of, lines, next_newline, pieces, push_decimal, push_str,
    ranges_within, strings_view, to_string, lemma_decimal_digits, is_digit,
};
use crate::tokenize::{
    count_tokens, lemma_run_end, lemma_skip_ws, run_end, skip_ws, spec_tokenize_indexed, tokenize_with_overlap_indexed, chunks_view, words,
    chunk_ranges, word_ranges_from, law_windows_cover_all_words, MAX_WORD_CHARS, clamp_overlap,
    lemma_windows_within, windows_from,
};

verus! {

/// A text chunk produced by the chunker
pub struct Chunk {
    /// Unique identifier for this chunk (file_path:line_offset)
    pub id: String,
    /// The markdown file this chunk came from
    pub source_file: String,
    /// Starting line offset in the source file
    pub line_start: usize,
    /// Ending line offset in the source file
    pub line_end: usize,
    /// The heading that anchors this section (if any)
    pub heading: Option<String>,
    /// Full heading path (e.g., "Title > Section 1 > Subsection")
    pub heading_path: Vec<String>,
    /// The raw text content of this chunk
    pub text: String,
}

/// Configuration for the chunker
#[derive(Debug, Clone, Copy)]
pub struct ChunkerConfig {
    /// Maximum tokens per chunk (default: 512)
    pub max_tokens: usize,
    /// Minimum tokens to keep a chunk (default: 50)
    pub min_chunk_size: usize,
    /// Overlap tokens between consecutive chunks in long sections (default: 50)
    pub overlap_tokens: usize,
    /// Merge tiny sections into the next one if below this threshold (default: 30)
    pub merge_threshold: usize,
}

impl Default for ChunkerConfig {
    fn default() -> (r: Self)
        ensures
            r.max_tokens == 512,
            r.min_chunk_size == 50,
            r.overlap_tokens == 50,
            r.merge_threshold == 30,
    {
        ChunkerConfig { max_tokens: 512, min_chunk_size: 50, overlap_tokens: 50, merge_threshold: 30 }
    }
}

impl ChunkerConfig {
    /// Build a ChunkerConfig from the authoritative SearchConfig.
    pub fn from_search_config(sc: &SearchConfig) -> (r: Self)
        ensures
            r.max_tokens == sc.max_seq_tokens,
            r.overlap_tokens == sc.chunk_overlap_tokens,
            r.min_chunk_size == sc.min_chunk_tokens,
            r.merge_threshold == sc.merge_threshold,
    {
        ChunkerConfig {
            max_tokens: sc.max_seq_tokens,
            overlap_tokens: sc.chunk_overlap_tokens,
            min_chunk_size: sc.min_chunk_tokens,
            merge_threshold: sc.merge_threshold,
        }
    }
}

// ---------------------------------------------------------------------------
// Word spans and line numbers
// ---------------------------------------------------------------------------

/// ASCII whitespace: space, tab, line feed, form feed, carriage return.
pub open spec fn is_ascii_ws(c: char) -> bool {
    c == ' ' || c == '\t' || c == '\n' || c == '\u{c}' || c == '\r'
}

pub open spec fn span_skip(s: Seq<char>, i: int) -> int
    decreases s.len() - i,
{
    if 0 <= i < s.len() && is_ascii_ws(s[i]) {
        span_skip(s, i + 1)
    } else {
        i
    }
}

pub open spec fn span_end(s: Seq<char>, i: int) -> int
    decreases s.len() - i,
{
    if 0 <= i < s.len() && !is_ascii_ws(s[i]) {
        span_end(s, i + 1)
    } else {
        i
    }
}

pub proof fn lemma_span_skip(s: Seq<char>, i: int)
    requires
        0 <= i <= s.len(),
    ensures
        i <= span_skip(s, i) <= s.len(),
        span_skip(s, i) < s.len() ==> !is_ascii_ws(s[span_skip(s, i)]),
    decreases s.len() - i,
{
    if i < s.len() && is_ascii_ws(s[i]) {
        lemma_span_skip(s, i + 1);
    }
}

pub proof fn lemma_span_end(s: Seq<char>, i: int)
    requires
        0 <= i <= s.len(),
    ensures
        i <= span_end(s, i) <= s.len(),
        i < s.len() && !is_ascii_ws(s[i]) ==> i < span_end(s, i),
    decreases s.len() - i,
{
    if i < s.len() && !is_ascii_ws(s[i]) {
        lemma_span_end(s, i + 1);
    }
}

/// The `[start, end)` ranges of the maximal runs of non-ASCII-whitespace characters of `s`
/// from `i` on.
pub open spec fn spans_from(s: Seq<char>, i: int) -> Seq<(int, int)>
    decreases s.len() - i,
{
    if i < 0 || i >= s.len() {
        seq![]
    } else {
        let j = span_skip(s, i);
        if j >= s.len() {
            seq![]
        } else {
            let e = span_end(s, j);
            proof {
                lemma_span_skip(s, i);
                lemma_span_end(s, j);
            }
            seq![(j, e)] + spans_from(s, e)
        }
    }
}

/// The ranges of the words of `s`, split at ASCII whitespace.
pub open spec fn word_spans(s: Seq<char>) -> Seq<(int, int)> {
    spans_from(s, 0)
}

pub proof fn lemma_spans_from(s: Seq<char>, i: int)
    requires
        0 <= i,
    ensures
        forall|k: int|
            0 <= k < spans_from(s, i).len() ==> i <= (#[trigger] spans_from(s, i)[k]).0 < spans_from(
                s,
                i,
            )[k].1 <= s.len(),
        forall|a: int, b: int|
            0 <= a < b < spans_from(s, i).len() ==> (#[trigger] spans_from(s, i)[a]).1 <= (
            #[trigger] spans_from(s, i)[b]).0,
    decreases s.len() - i,
{
    if i < s.len() {
        lemma_span_skip(s, i);
        let j = span_skip(s, i);
        if j < s.len() {
            lemma_span_end(s, j);
            let e = span_end(s, j);
            lemma_spans_from(s, e);
            let here = spans_from(s, i);
            let rest = spans_from(s, e);
            assert(here == seq![(j, e)] + rest);
            assert forall|k: int| 0 <= k < here.len() implies i <= (#[trigger] here[k]).0
                < here[k].1 <= s.len() by {
                if k > 0 {
                    assert(here[k] == rest[k - 1]);
                }
            }
            assert forall|a: int, b: int| 0 <= a < b < here.len() implies (#[trigger] here[a]).1
                <= (#[trigger] here[b]).0 by {
                assert(here[b] == rest[b - 1]);
                if a > 0 {
                    assert(here[a] == rest[a - 1]);
                }
            }
        }
    }
}

/// Number of `'\n'` among the first `p` characters of `s`.
pub open spec fn newlines_before(s: Seq<char>, p: int) -> int
    decreases p,
{
    if p <= 0 {
        0
    } else {
        newlines_before(s, p - 1) + if s[p - 1] == '\n' {
            1int
        } else {
            0int
        }
    }
}

/// The line (counted from 0) of position `pos` in `s`: the newlines before it, the
/// position clamped to the end of `s`.
pub open spec fn line_at(s: Seq<char>, pos: int) -> int {
    newlines_before(
        s,
        if pos < s.len() {
            pos
        } else {
            s.len() as int
        },
    )
}

pub proof fn lemma_newlines_before(s: Seq<char>, p: int, q: int)
    requires
        0 <= p <= q,
    ensures
        0 <= newlines_before(s, p) <= newlines_before(s, q),
        newlines_before(s, p) <= p,
    decreases q,
{
    if q > p {
        lemma_newlines_before(s, p, q - 1);
    } else if p > 0 {
        lemma_newlines_before(s, p - 1, p - 1);
    }
}

/// The word ranges of `v`, split at ASCII whitespace.
fn spans_of(v: &Vec<char>) -> (r: Vec<(usize, usize)>)
    ensures
        r@.len() == word_spans(v@).len(),
        forall|k: int|
            0 <= k < r@.len() ==> (#[trigger] r@[k]).0 == word_spans(v@)[k].0 && r@[k].1
                == word_spans(v@)[k].1,
        forall|k: int| 0 <= k < r@.len() ==> (#[trigger] r@[k]).0 < r@[k].1 <= v@.len(),
{
    let mut out: Vec<(usize, usize)> = Vec::new();
    let mut i: usize = 0;
    let ghost all = word_spans(v@);
    proof {
        lemma_spans_from(v@, 0);
    }
    while i < v.len()
        invariant
            i <= v.len(),
            all == word_spans(v@),
            out@.len() + spans_from(v@, i as int).len() == all.len(),
            forall|k: int|
                0 <= k < out@.len() ==> (#[trigger] out@[k]).0 == all[k].0 && out@[k].1 == all[k].1,
            forall|k: int|
                0 <= k < spans_from(v@, i as int).len() ==> #[trigger] spans_from(v@, i as int)[k]
                    == all[out@.len() + k],
            forall|k: int| 0 <= k < out@.len() ==> (#[trigger] out@[k]).0 < out@[k].1 <= v@.len(),
        decreases v.len() - i,
    {
        let ghost gi = i as int;
        proof {
            lemma_span_skip(v@, gi);
            lemma_spans_from(v@, gi);
        }
        let mut j = i;
        while j < v.len() && (v[j] == ' ' || v[j] == '\t' || v[j] == '\n' || v[j] == '\u{c}' || v[j]
            == '\r')
            invariant
                i <= j <= v.len(),
                span_skip(v@, i as int) == span_skip(v@, j as int),
            decreases v.len() - j,
        {
            j += 1;
        }
        if j >= v.len() {
            assert(spans_from(v@, gi) =~= seq![]);
            i = v.len();
        } else {
            let mut e = j;
            while e < v.len() && !(v[e] == ' ' || v[e] == '\t' || v[e] == '\n' || v[e] == '\u{c}'
                || v[e] == '\r')
                invariant
                    j <= e <= v.len(),
                    span_end(v@, j as int) == span_end(v@, e as int),
                decreases v.len() - e,
            {
                e += 1;
            }
            proof {
                lemma_span_end(v@, j as int);
            }
            let ghost rest = spans_from(v@, e as int);
            assert(spans_from(v@, gi) == seq![(j as int, e as int)] + rest);
            assert(spans_from(v@, gi)[0] == all[out@.len() as int]);
            let ghost old_len = out@.len();
            out.push((j, e));
            assert forall|k: int| 0 <= k < rest.len() implies #[trigger] rest[k] == all[out@.len()
                + k] by {
                assert(spans_from(v@, gi)[k + 1] == rest[k]);
                assert(spans_from(v@, gi)[k + 1] == all[old_len + (k + 1)]);
            }
            i = e;
        }
    }
    proof {
        assert(spans_from(v@, i as int).len() == 0);
    }
    out
}

/// Compute the 0-indexed line number at a given character position in `v`.
fn line_at_exec(v: &Vec<char>, pos: usize) -> (r: usize)
    ensures
        r == line_at(v@, pos as int),
        r <= v@.len(),
{
    let clamped = if pos < v.len() { pos } else { v.len() };
    let mut n: usize = 0;
    let mut k: usize = 0;
    while k < clamped
        invariant
            k <= clamped <= v.len(),
            n == newlines_before(v@, k as int),
            n <= k,
        decreases clamped - k,
    {
        if v[k] == '\n' {
            n += 1;
        }
        k += 1;
    }
    n
}

// ---------------------------------------------------------------------------
// Chunks as values
// ---------------------------------------------------------------------------

/// What a chunk holds, as plain values.
pub struct ChunkV {
    pub id: Seq<char>,
    pub source_file: Seq<char>,
    pub line_start: int,
    pub line_end: int,
    pub heading: Option<Seq<char>>,
    pub heading_path: Seq<Seq<char>>,
    pub text: Seq<char>,
}

pub open spec fn chunk_view(c: Chunk) -> ChunkV {
    ChunkV {
        id: c.id@,
        source_file: c.source_file@,
        line_start: c.line_start as int,
        line_end: c.line_end as int,
        heading: match c.heading {
            Some(h) => Some(h@),
            None => None,
        },
        heading_path: strings_view(c.heading_path@),
        text: c.text@,
    }
}

pub open spec fn chunk_views(cs: Seq<Chunk>) -> Seq<ChunkV> {
    cs.map_values(|c: Chunk| chunk_view(c))
}

/// The texts of the words `sp[a..b]` of `c`.
pub open spec fn span_words(c: Seq<char>, sp: Seq<(int, int)>, a: int, b: int) -> Seq<Seq<char>> {
    Seq::new((b - a) as nat, |k: int| c.subrange(sp[a + k].0, sp[a + k].1))
}

/// Size-based chunks of `c` from word `start` on: blocks of `max` words joined with single
/// spaces, each kept when it holds at least `min` tokens.
pub open spec fn size_chunks_from(c: Seq<char>, file: Seq<char>, max: int, min: int, start: int) -> Seq<
    ChunkV,
>
    decreases word_spans(c).len() - start,
{
    let sp = word_spans(c);
    if start < 0 || start >= sp.len() || max <= 0 {
        seq![]
    } else {
        let end = if start + max < sp.len() {
            start + max
        } else {
            sp.len() as int
        };
        let text = join_with(span_words(c, sp, start, end), seq![' ']);
        let rest = size_chunks_from(c, file, max, min, end);
        if words(text).len() >= min {
            let ls = line_at(c, sp[start].0);
            seq![
                ChunkV {
                    id: file + seq![':'] + decimal(ls as nat),
                    source_file: file,
                    line_start: ls,
                    line_end: line_at(c, sp[end - 1].1),
                    heading: None,
                    heading_path: seq![],
                    text,
                },
            ] + rest
        } else {
            rest
        }
    }
}



// ---------------------------------------------------------------------------
// Chunks of a whole file
// ---------------------------------------------------------------------------

/// A section as plain values: `(title, level, line_number, content, start_line, end_line)`.
pub open spec fn section_view(s: Section) -> (Seq<char>, int, int, Seq<char>, int, int) {
    (
        s.heading.title@,
        s.heading.level as int,
        s.heading.line_number as int,
        s.content@,
        s.start_line as int,
        s.end_line as int,
    )
}

/// Number of whitespace-separated words of `s` from `i` on (`split_whitespace().count()`).
pub open spec fn ws_words_from(s: Seq<char>, i: int) -> int
    decreases s.len() - i,
{
    if i < 0 || i >= s.len() {
        0
    } else {
        let j = skip_ws(s, i);
        if j >= s.len() {
            0
        } else {
            proof {
                lemma_skip_ws(s, i);
                lemma_run_end(s, j);
            }
            1 + ws_words_from(s, run_end(s, j))
        }
    }
}

/// The heading stack with the entries at `level` or deeper removed from its top.
pub open spec fn pop_to(stack: Seq<(int, Seq<char>)>, level: int) -> Seq<(int, Seq<char>)>
    decreases stack.len(),
{
    if stack.len() > 0 && stack.last().0 >= level {
        pop_to(stack.drop_last(), level)
    } else {
        stack
    }
}

pub open spec fn stack_titles(stack: Seq<(int, Seq<char>)>) -> Seq<Seq<char>> {
    stack.map_values(|e: (int, Seq<char>)| e.1)
}

/// The parts a text of `tokens` tokens is cut into: itself when it fits in `max` tokens,
/// else overlapping windows.
pub open spec fn parts_of(text: Seq<char>, tokens: int, max: int, overlap: int) -> Seq<(Seq<char>, int, int)> {
    if tokens > max {
        spec_tokenize_indexed(text, max, overlap)
    } else {
        seq![(text, 0, tokens)]
    }
}

/// `file:n:anchor`, the anchor being the innermost heading of `path`, else `dflt`.
pub open spec fn chunk_id(file: Seq<char>, n: int, path: Seq<Seq<char>>, dflt: Seq<char>) -> Seq<char> {
    file + seq![':'] + decimal(n as nat) + seq![':'] + if path.len() > 0 {
        path.last()
    } else {
        dflt
    }
}

/// `a - b`, or 0 below zero.
pub open spec fn sub0(a: int, b: int) -> int {
    if a >= b {
        a - b
    } else {
        0
    }
}

/// The span index of the last word of a part ending (exclusively) at word `en`, kept among
/// the `n` spans.
pub open spec fn last_index(en: int, n: int) -> int {
    let a = sub0(en, 1);
    if a < n - 1 {
        a
    } else {
        n - 1
    }
}

/// The lines `(line_start, line_end)` of the part `st..en` of the text made of section `s`,
/// two newlines, and section `nx`; `sp` are that text's spans and `fsw` the number of words
/// of `s`.
pub open spec fn merged_part_lines(
    s: (Seq<char>, int, int, Seq<char>, int, int),
    nx: (Seq<char>, int, int, Seq<char>, int, int),
    sp: Seq<(int, int)>,
    fsw: int,
    st: int,
    en: int,
) -> (int, int) {
    if sp.len() > 0 && st < sp.len() {
        let li = last_index(en, sp.len() as int);
        let off = s.3.len() + 2int;
        let a = if st < fsw {
            s.4 + line_at(s.3, sp[st].0)
        } else {
            nx.4 + line_at(nx.3, sub0(sp[st].0, off))
        };
        let b = if li < fsw {
            s.4 + line_at(s.3, sp[li].1)
        } else {
            nx.4 + line_at(nx.3, sub0(sp[li].1, off))
        };
        (a, b)
    } else {
        (s.4, nx.5)
    }
}

/// The chunks of the parts `parts[j..]` of a merged pair of sections.
pub open spec fn merged_chunks(
    file: Seq<char>,
    s: (Seq<char>, int, int, Seq<char>, int, int),
    nx: (Seq<char>, int, int, Seq<char>, int, int),
    path: Seq<Seq<char>>,
    parts: Seq<(Seq<char>, int, int)>,
    sp: Seq<(int, int)>,
    fsw: int,
    j: int,
) -> Seq<ChunkV>
    decreases parts.len() - j,
{
    if j < 0 || j >= parts.len() {
        seq![]
    } else {
        let lines = merged_part_lines(s, nx, sp, fsw, parts[j].1, parts[j].2);
        seq![
            ChunkV {
                id: chunk_id(file, s.4 + j, path, seq!['m', 'e', 'r', 'g', 'e', 'd']),
                source_file: file,
                line_start: lines.0,
                line_end: lines.1,
                heading: Some(s.0),
                heading_path: path,
                text: parts[j].0,
            },
        ] + merged_chunks(file, s, nx, path, parts, sp, fsw, j + 1)
    }
}

/// The lines of the part `st..en` of section `s`, whose spans are `sp`.
pub open spec fn section_part_lines(
    s: (Seq<char>, int, int, Seq<char>, int, int),
    sp: Seq<(int, int)>,
    st: int,
    en: int,
) -> (int, int) {
    if st < sp.len() && sub0(en, st) > 0 {
        (s.4 + line_at(s.3, sp[st].0), s.4 + line_at(s.3, sp[last_index(en, sp.len() as int)].1))
    } else {
        (s.4, s.5)
    }
}

/// The chunks of the parts `parts[j..]` of section `s`; a section left whole is dropped
/// when it has fewer than `min` tokens.
pub open spec fn section_chunks(
    file: Seq<char>,
    min: int,
    s: (Seq<char>, int, int, Seq<char>, int, int),
    path: Seq<Seq<char>>,
    parts: Seq<(Seq<char>, int, int)>,
    sp: Seq<(int, int)>,
    j: int,
) -> Seq<ChunkV>
    decreases parts.len() - j,
{
    if j < 0 || j >= parts.len() {
        seq![]
    } else {
        let rest = section_chunks(file, min, s, path, parts, sp, j + 1);
        if words(parts[j].0).len() < min && parts.len() == 1 {
            rest
        } else {
            let lines = section_part_lines(s, sp, parts[j].1, parts[j].2);
            seq![
                ChunkV {
                    id: chunk_id(file, s.4 + j, path, seq!['s', 'e', 'c', 't', 'i', 'o', 'n']),
                    source_file: file,
                    line_start: lines.0,
                    line_end: lines.1,
                    heading: Some(s.0),
                    heading_path: path,
                    text: parts[j].0,
                },
            ] + rest
        }
    }
}

/// The text of section `s`, two newlines, and the text of section `nx`.
pub open spec fn merged_text(
    s: (Seq<char>, int, int, Seq<char>, int, int),
    nx: (Seq<char>, int, int, Seq<char>, int, int),
) -> Seq<char> {
    s.3 + seq!['\n', '\n'] + nx.3
}

/// Section `i` is merged with the next one: it has fewer than `merge_threshold` tokens, a
/// next section exists, and the two together have at most twice `max_tokens` tokens.
pub open spec fn merges(cfg: ChunkerConfig, secs: Seq<(Seq<char>, int, int, Seq<char>, int, int)>, i: int) -> bool {
    &&& words(secs[i].3).len() < cfg.merge_threshold
    &&& i + 1 < secs.len()
    &&& words(merged_text(secs[i], secs[i + 1])).len() <= 2 * cfg.max_tokens
}

/// The chunks of sections `secs[i..]`, given the stack of `(level, title)` of the headings
/// that enclose section `i`.
pub open spec fn chunks_from(
    cfg: ChunkerConfig,
    file: Seq<char>,
    secs: Seq<(Seq<char>, int, int, Seq<char>, int, int)>,
    i: int,
    stack: Seq<(int, Seq<char>)>,
) -> Seq<ChunkV>
    decreases secs.len() - i,
{
    if i < 0 || i >= secs.len() {
        seq![]
    } else {
        let s = secs[i];
        let popped = pop_to(stack, s.1);
        let path = stack_titles(popped);
        let next_stack = if s.0.len() > 0 {
            popped.push((s.1, s.0))
        } else {
            popped
        };
        let max = cfg.max_tokens as int;
        let ov = cfg.overlap_tokens as int;
        if merges(cfg, secs, i) {
            let m = merged_text(s, secs[i + 1]);
            let parts = parts_of(m, words(m).len() as int, max, ov);
            merged_chunks(file, s, secs[i + 1], path, parts, word_spans(m), ws_words_from(s.3, 0), 0)
                + chunks_from(cfg, file, secs, i + 2, next_stack)
        } else {
            let parts = parts_of(s.3, words(s.3).len() as int, max, ov);
            section_chunks(file, cfg.min_chunk_size as int, s, path, parts, word_spans(s.3), 0)
                + chunks_from(cfg, file, secs, i + 1, next_stack)
        }
    }
}

/// No section has a title: the document has no heading.
pub open spec fn all_untitled(secs: Seq<(Seq<char>, int, int, Seq<char>, int, int)>) -> bool {
    forall|k: int| 0 <= k < secs.len() ==> (#[trigger] secs[k]).0.len() == 0
}

/// The chunks of a file: by sections when it has headings, else by size.
pub open spec fn file_chunks(cfg: ChunkerConfig, file: Seq<char>, content: Seq<char>) -> Seq<ChunkV> {
    let secs = document_sections(content);
    if all_untitled(secs) {
        size_chunks_from(
            content,
            file,
            cfg.max_tokens as int,
            cfg.min_chunk_size as int,
            0,
        )
    } else {
        chunks_from(cfg, file, secs, 0, seq![])
    }
}


// ---------------------------------------------------------------------------
// Line numbers stay within the document
// ---------------------------------------------------------------------------

/// Number of newlines in `s`.
pub open spec fn newline_count(s: Seq<char>) -> int {
    newlines_before(s, s.len() as int)
}

proof fn lemma_newlines_prefix(a: Seq<char>, b: Seq<char>, k: int)
    requires
        0 <= k <= a.len(),
    ensures
        newlines_before(a + b, k) == newlines_before(a, k),
    decreases k,
{
    if k > 0 {
        lemma_newlines_prefix(a, b, k - 1);
        assert((a + b)[k - 1] == a[k - 1]);
    }
}

proof fn lemma_newlines_concat(a: Seq<char>, b: Seq<char>, k: int)
    requires
        0 <= k <= b.len(),
    ensures
        newlines_before(a + b, a.len() + k) == newline_count(a) + newlines_before(b, k),
    decreases k,
{
    if k > 0 {
        lemma_newlines_concat(a, b, k - 1);
        assert((a + b)[a.len() + k - 1] == b[k - 1]);
    } else {
        lemma_newlines_prefix(a, b, a.len() as int);
    }
}

proof fn lemma_no_newline(s: Seq<char>, k: int)
    requires
        0 <= k <= s.len(),
        forall|i: int| 0 <= i < s.len() ==> s[i] != '\n',
    ensures
        newlines_before(s, k) == 0,
    decreases k,
{
    if k > 0 {
        lemma_no_newline(s, k - 1);
    }
}

proof fn lemma_line_ranges_no_newline(s: Seq<char>, i: int)
    requires
        0 <= i,
    ensures
        forall|k: int, x: int|
            #![trigger line_ranges_from(s, i)[k], s[x]]
            0 <= k < line_ranges_from(s, i).len() && line_ranges_from(s, i)[k].0 <= x
                < line_ranges_from(s, i)[k].1 ==> s[x] != '\n',
    decreases s.len() - i,
{
    if i < s.len() {
        lemma_next_newline(s, i);
        let j = next_newline(s, i);
        if j < s.len() {
            lemma_line_ranges_no_newline(s, j + 1);
            let here = line_ranges_from(s, i);
            let rest = line_ranges_from(s, j + 1);
            assert forall|k: int, x: int|
                #![trigger here[k], s[x]]
                0 <= k < here.len() && here[k].0 <= x < here[k].1 implies s[x] != '\n' by {
                if k > 0 {
                    assert(here[k] == rest[k - 1]);
                }
            }
        }
    }
}

/// A line holds no newline.
proof fn lemma_line_no_newline(c: Seq<char>, k: int)
    requires
        0 <= k < lines(c).len(),
    ensures
        newline_count(lines(c)[k]) == 0,
{
    lemma_line_ranges_no_newline(c, 0);
    lemma_line_ranges_bounds(c, 0);
    let r = line_ranges(c)[k];
    let l = lines(c)[k];
    assert(l == c.subrange(r.0, r.1));
    assert forall|i: int| 0 <= i < l.len() implies l[i] != '\n' by {
        assert(l[i] == c[r.0 + i]);
    }
    lemma_no_newline(l, l.len() as int);
}

/// Lines joined with newlines hold one newline fewer than there are lines.
proof fn lemma_join_newlines(ws: Seq<Seq<char>>)
    requires
        forall|k: int| 0 <= k < ws.len() ==> newline_count(#[trigger] ws[k]) == 0,
    ensures
        newline_count(join_with(ws, seq!['\n'])) == if ws.len() == 0 {
            0
        } else {
            ws.len() - 1
        },
    decreases ws.len(),
{
    if ws.len() > 1 {
        let a = join_with(ws.drop_last(), seq!['\n']);
        assert forall|k: int| 0 <= k < ws.drop_last().len() implies newline_count(
            #[trigger] ws.drop_last()[k],
        ) == 0 by {
            assert(ws.drop_last()[k] == ws[k]);
        }
        lemma_join_newlines(ws.drop_last());
        let b = seq!['\n'];
        let w = ws.last();
        assert(join_with(ws, seq!['\n']) == a + b + w);
        lemma_newlines_concat(a, b, 1);
        assert(newlines_before(b, 1) == 1) by {
            assert(newlines_before(b, 0) == 0);
        }
        lemma_newlines_concat(a + b, w, w.len() as int);
        assert(ws[ws.len() - 1] == w);
    } else if ws.len() == 1 {
        assert(join_with(ws, seq!['\n']) == ws[0]);
    }
}

/// Each section's start line plus the newlines in its content stays within the lines of
/// the document.
pub proof fn lemma_section_lines(content: Seq<char>, k: int)
    requires
        0 <= k < document_sections(content).len(),
    ensures
        ({
            let s = document_sections(content)[k];
            &&& 0 <= s.4
            &&& s.4 + newline_count(s.3) <= lines(content).len()
        }),
{
    let ls = lines(content);
    let es = outline_entries(content);
    lemma_entries_bounds(ls, 0, 0);
    lemma_entries_increasing(ls, 0, 0);
    let secs = document_sections(content);
    let s = secs[k];
    assert forall|a: int, b: int| 0 <= a <= b <= ls.len() implies newline_count(
        #[trigger] section_body(ls, a, b),
    ) <= sub0(b - a, 1) by {
        if a < ls.len() && b <= ls.len() {
            let ws = ls.subrange(a, b);
            assert forall|i: int| 0 <= i < ws.len() implies newline_count(#[trigger] ws[i]) == 0 by {
                lemma_line_no_newline(content, a + i);
            }
            lemma_join_newlines(ws);
        } else {
            assert(newlines_before(Seq::<char>::empty(), 0) == 0);
        }
    }
    let first = if es.len() > 0 {
        es[0].2 - 1
    } else {
        ls.len() as int
    };
    let pre = section_body(ls, 0, first);
    let lead: Seq<(Seq<char>, int, int, Seq<char>, int, int)> = if words(pre).len() > 0 {
        seq![(Seq::<char>::empty(), 0int, 0int, pre, 0int, first)]
    } else {
        seq![]
    };
    if k < lead.len() {
        assert(s == lead[0]);
        assert(0 <= first <= ls.len());
        assert(newline_count(section_body(ls, 0, first)) <= sub0(first, 1));
    } else {
        let i = k - lead.len();
        assert(s == chunk_section_at(ls, es, i));
        let end = section_end(es, i, true, ls.len() as int);
        lemma_next_at_or_above_bounds(es, i, i + 1);
        let j = next_at_or_above(es, i, i + 1);
        if j < es.len() {
            assert(es[i].2 < es[j].2);
        }
        assert(es[i].2 <= end <= ls.len());
        assert(newline_count(section_body(ls, es[i].2, end)) <= sub0(end - es[i].2, 1));
    }
}


/// `split_whitespace().count()` over `v`.
fn ws_word_count(v: &Vec<char>) -> (r: usize)
    ensures
        r == ws_words_from(v@, 0),
{
    let mut n: usize = 0;
    let mut i: usize = 0;
    while i < v.len()
        invariant
            i <= v.len(),
            n <= i,
            n + ws_words_from(v@, i as int) == ws_words_from(v@, 0),
        decreases v.len() - i,
    {
        let ghost gi = i as int;
        proof {
            lemma_skip_ws(v@, gi);
        }
        let mut j = i;
        while j < v.len() && is_whitespace(v[j])
            invariant
                i <= j <= v.len(),
                skip_ws(v@, i as int) == skip_ws(v@, j as int),
            decreases v.len() - j,
        {
            j += 1;
        }
        if j >= v.len() {
            i = v.len();
        } else {
            let mut e = j;
            while e < v.len() && !is_whitespace(v[e])
                invariant
                    j <= e <= v.len(),
                    run_end(v@, j as int) == run_end(v@, e as int),
                decreases v.len() - e,
            {
                e += 1;
            }
            proof {
                lemma_run_end(v@, j as int);
            }
            n += 1;
            i = e;
        }
    }
    n
}

/// The views of a heading stack.
pub open spec fn stack_view(st: Seq<(usize, String)>) -> Seq<(int, Seq<char>)> {
    st.map_values(|e: (usize, String)| (e.0 as int, e.1@))
}

/// Copies of the strings of `v`.
fn clone_strings(v: &Vec<String>) -> (r: Vec<String>)
    ensures
        strings_view(r@) == strings_view(v@),
{
    let mut out: Vec<String> = Vec::new();
    let mut i: usize = 0;
    while i < v.len()
        invariant
            i <= v.len(),
            strings_view(out@) == strings_view(v@.take(i as int)),
        decreases v.len() - i,
    {
        let ghost before = out@;
        out.push(v[i].clone());
        assert(strings_view(out@) =~= strings_view(before).push(v@[i as int]@));
        assert(v@.take(i + 1) =~= v@.take(i as int).push(v@[i as int]));
        assert(strings_view(v@.take(i + 1)) =~= strings_view(v@.take(i as int)).push(v@[i as int]@));
        i += 1;
    }
    assert(v@.take(v@.len() as int) =~= v@);
    out
}

/// `file:n:anchor` for a chunk id.
fn make_id(file: &String, n: u128, path: &Vec<String>, dflt: &str) -> (r: String)
    ensures
        r@ == chunk_id(file@, n as int, strings_view(path@), dflt@),
{
    let mut id = file.clone();
    id.push(':');
    push_decimal(&mut id, n);
    id.push(':');
    if path.len() > 0 {
        push_str(&mut id, path[path.len() - 1].as_str());
    } else {
        push_str(&mut id, dflt);
    }
    proof {
        if path@.len() > 0 {
            assert(strings_view(path@).last() == path@[path@.len() - 1]@);
        }
    }
    assert(id@ =~= chunk_id(file@, n as int, strings_view(path@), dflt@));
    id
}

proof fn lemma_line_at_bound(s: Seq<char>, p: int)
    ensures
        0 <= line_at(s, p) <= newline_count(s),
{
    let q = if p < s.len() {
        p
    } else {
        s.len() as int
    };
    if q >= 0 {
        lemma_newlines_before(s, q, s.len() as int);
    } else {
        lemma_newlines_before(s, 0, s.len() as int);
    }
}

// ---------------------------------------------------------------------------
// The chunker
// ---------------------------------------------------------------------------

/// Chunker that splits markdown files into searchable chunks using outline sections.
pub struct Chunker {
    config: ChunkerConfig,
    extractor: OutlineExtractor,
}

impl Chunker {
    /// The chunker's settings.
    pub closed spec fn settings(&self) -> ChunkerConfig {
        self.config
    }

    pub fn new(config: ChunkerConfig) -> (r: Self)
        ensures
            r.settings() == config,
    {
        Chunker { config, extractor: OutlineExtractor::new() }
    }

    /// Create with default configuration
    pub fn default_config() -> (r: Self)
        ensures
            r.settings().max_tokens == 512,
            r.settings().min_chunk_size == 50,
            r.settings().overlap_tokens == 50,
            r.settings().merge_threshold == 30,
    {
        Self::new(ChunkerConfig::default())
    }

    /// Split text into fixed-size word chunks without overlap.
    fn chunk_by_size(&self, content: &str, file_name: &String) -> (r: Vec<Chunk>)
        requires
            self.settings().max_tokens > 0,
        ensures
            chunk_views(r@) == size_chunks_from(
                content@,
                file_name@,
                self.settings().max_tokens as int,
                self.settings().min_chunk_size as int,
                0,
            ),
    {
        let v = chars_of(content);
        let sp = spans_of(&v);
        let ghost gsp = word_spans(v@);
        let max = self.config.max_tokens;
        let min = self.config.min_chunk_size;
        let ghost total = size_chunks_from(v@, file_name@, max as int, min as int, 0);
        let mut chunks: Vec<Chunk> = Vec::new();
        let mut start: usize = 0;
        proof {
            reveal_strlit(" ");
        }
        while start < sp.len()
            invariant
                start <= sp@.len() == gsp.len(),
                gsp == word_spans(v@),
                v@ == content@,
                max == self.settings().max_tokens,
                min == self.settings().min_chunk_size,
                max > 0,
                " "@ == seq![' '],
                forall|k: int|
                    0 <= k < sp@.len() ==> (#[trigger] sp@[k]).0 == gsp[k].0 && sp@[k].1 == gsp[k].1,
                forall|k: int| 0 <= k < sp@.len() ==> (#[trigger] sp@[k]).0 < sp@[k].1 <= v@.len(),
                total == size_chunks_from(v@, file_name@, max as int, min as int, 0),
                chunk_views(chunks@) + size_chunks_from(v@, file_name@, max as int, min as int, start as int)
                    == total,
            decreases sp@.len() - start,
        {
            let end = if max < sp.len() - start { start + max } else { sp.len() };
            proof {
                assert(ranges_within(sp@, v@.len() as int));
            }
            let text = join_ranges(&v, &sp, start, end, " ");
            proof {
                assert(pieces(v@, sp@, start as int, end as int) =~= span_words(
                    v@,
                    gsp,
                    start as int,
                    end as int,
                ));
            }
            let ghost rest = size_chunks_from(v@, file_name@, max as int, min as int, end as int);
            if count_tokens(text.as_str()) >= min {
                let ls = line_at_exec(&v, sp[start].0);
                let le = line_at_exec(&v, sp[end - 1].1);
                let mut id = file_name.clone();
                id.push(':');
                push_decimal(&mut id, ls as u128);
                let ghost before = chunks@;
                chunks.push(
                    Chunk {
                        id,
                        source_file: file_name.clone(),
                        line_start: ls,
                        line_end: le,
                        heading: None,
                        heading_path: Vec::new(),
                        text,
                    },
                );
                proof {
                    let c = chunk_view(chunks@.last());
                    assert(c.heading_path =~= seq![]);
                    assert(c.id =~= file_name@ + seq![':'] + decimal(ls as nat));
                    assert(chunk_views(chunks@) =~= chunk_views(before).push(c));
                    assert(size_chunks_from(v@, file_name@, max as int, min as int, start as int)
                        == seq![c] + rest);
                    assert(chunk_views(chunks@) + rest =~= chunk_views(before) + (seq![c] + rest));
                }
            } else {
                assert(size_chunks_from(v@, file_name@, max as int, min as int, start as int) == rest);
            }
            start = end;
        }
        proof {
            assert(size_chunks_from(v@, file_name@, max as int, min as int, start as int) =~= seq![]);
            assert(chunk_views(chunks@) =~= total);
        }
        chunks
    }

    /// The parts of a text with `tokens` tokens: the text itself, or overlapping windows.
    fn parts_for(&self, text: &String, tokens: usize) -> (r: Vec<(String, usize, usize)>)
        ensures
            chunks_view(r@) == parts_of(
                text@,
                tokens as int,
                self.settings().max_tokens as int,
                self.settings().overlap_tokens as int,
            ),
    {
        if tokens > self.config.max_tokens {
            self.split_long_text(text.as_str())
        } else {
            let mut v: Vec<(String, usize, usize)> = Vec::new();
            v.push((text.clone(), 0, tokens));
            assert(chunks_view(v@) =~= seq![(text@, 0int, tokens as int)]);
            v
        }
    }

    /// Split a long text into multiple overlapping chunks respecting token budget.
    /// Returns `(chunk_text, start_word_idx, end_word_idx_exclusive)` for each part,
    /// where indices are relative to the input text's word array and correctly account
    /// for overlap re-emission.
    fn split_long_text(&self, text: &str) -> (r: Vec<(String, usize, usize)>)
        ensures
            chunks_view(r@) == spec_tokenize_indexed(
                text@,
                self.settings().max_tokens as int,
                self.settings().overlap_tokens as int,
            ),
    {
        tokenize_with_overlap_indexed(text, self.config.max_tokens, self.config.overlap_tokens)
    }

    /// Appends the chunks of section `s` (left whole or split), under the headings `path`.
    fn emit_section(&self, out: &mut Vec<Chunk>, file: &String, s: &Section, path: &Vec<String>)
        requires
            s.start_line + newline_count(s.content@) <= usize::MAX,
        ensures
            chunk_views(final(out)@) == chunk_views(old(out)@) + section_chunks(
                file@,
                self.settings().min_chunk_size as int,
                section_view(*s),
                strings_view(path@),
                parts_of(
                    s.content@,
                    words(s.content@).len() as int,
                    self.settings().max_tokens as int,
                    self.settings().overlap_tokens as int,
                ),
                word_spans(s.content@),
                0,
            ),
    {
        let cv = chars_of(s.content.as_str());
        let sp = spans_of(&cv);
        let tokens = count_tokens(s.content.as_str());
        let parts = self.parts_for(&s.content, tokens);
        let ghost sv = section_view(*s);
        let ghost pv = strings_view(path@);
        let ghost gparts = chunks_view(parts@);
        let ghost gsp = word_spans(s.content@);
        let ghost min = self.settings().min_chunk_size as int;
        let ghost total = chunk_views(old(out)@) + section_chunks(file@, min, sv, pv, gparts, gsp, 0);
        let mut j: usize = 0;
        while j < parts.len()
            invariant
                j <= parts@.len() == gparts.len(),
                gparts == chunks_view(parts@),
                cv@ == s.content@,
                sv == section_view(*s),
                pv == strings_view(path@),
                gsp == word_spans(s.content@),
                min == self.settings().min_chunk_size as int,
                sp@.len() == gsp.len(),
                forall|k: int|
                    0 <= k < sp@.len() ==> (#[trigger] sp@[k]).0 == gsp[k].0 && sp@[k].1 == gsp[k].1,
                s.start_line + newline_count(s.content@) <= usize::MAX,
                total == chunk_views(old(out)@) + section_chunks(file@, min, sv, pv, gparts, gsp, 0),
                chunk_views(out@) + section_chunks(file@, min, sv, pv, gparts, gsp, j as int) == total,
            decreases parts@.len() - j,
        {
            let ghost rest = section_chunks(file@, min, sv, pv, gparts, gsp, j + 1);
            assert(gparts[j as int] == (parts@[j as int].0@, parts@[j as int].1 as int, parts@[j as int].2 as int));
            let st = parts[j].1;
            let en = parts[j].2;
            if count_tokens(parts[j].0.as_str()) < self.config.min_chunk_size && parts.len() == 1 {
                assert(section_chunks(file@, min, sv, pv, gparts, gsp, j as int) == rest);
            } else {
                let (ls, le) = if st < sp.len() && en.saturating_sub(st) > 0 {
                    let a = en.saturating_sub(1);
                    let li = if a < sp.len() - 1 { a } else { sp.len() - 1 };
                    proof {
                        lemma_line_at_bound(s.content@, sp@[st as int].0 as int);
                        lemma_line_at_bound(s.content@, sp@[li as int].1 as int);
                    }
                    (
                        s.start_line + line_at_exec(&cv, sp[st].0),
                        s.start_line + line_at_exec(&cv, sp[li].1),
                    )
                } else {
                    (s.start_line, s.end_line)
                };
                let id = make_id(file, s.start_line as u128 + j as u128, path, "section");
                let ghost before = out@;
                out.push(
                    Chunk {
                        id,
                        source_file: file.clone(),
                        line_start: ls,
                        line_end: le,
                        heading: Some(s.heading.title.clone()),
                        heading_path: clone_strings(path),
                        text: parts[j].0.clone(),
                    },
                );
                proof {
                    reveal_strlit("section");
                    assert("section"@ =~= seq!['s', 'e', 'c', 't', 'i', 'o', 'n']);
                    let c = chunk_view(out@.last());
                    assert(section_chunks(file@, min, sv, pv, gparts, gsp, j as int) == seq![c] + rest);
                    assert(chunk_views(out@) =~= chunk_views(before).push(c));
                    assert(chunk_views(out@) + rest =~= chunk_views(before) + (seq![c] + rest));
                }
            }
            j += 1;
        }
        proof {
            assert(section_chunks(file@, min, sv, pv, gparts, gsp, j as int) =~= seq![]);
            assert(chunk_views(out@) =~= total);
        }
    }

    /// Appends the chunks of the text of section `s` merged with section `nx` (`merged`, with
    /// `mt` tokens), under the headings `path`.
    fn emit_merged(
        &self,
        out: &mut Vec<Chunk>,
        file: &String,
        s: &Section,
        nx: &Section,
        merged: &String,
        mt: usize,
        path: &Vec<String>,
    )
        requires
            merged@ == merged_text(section_view(*s), section_view(*nx)),
            mt == words(merged@).len(),
            s.start_line + newline_count(s.content@) <= usize::MAX,
            nx.start_line + newline_count(nx.content@) <= usize::MAX,
        ensures
            chunk_views(final(out)@) == chunk_views(old(out)@) + merged_chunks(
                file@,
                section_view(*s),
                section_view(*nx),
                strings_view(path@),
                parts_of(
                    merged@,
                    mt as int,
                    self.settings().max_tokens as int,
                    self.settings().overlap_tokens as int,
                ),
                word_spans(merged@),
                ws_words_from(s.content@, 0),
                0,
            ),
    {
        let sc = chars_of(s.content.as_str());
        let nc = chars_of(nx.content.as_str());
        let mv = chars_of(merged.as_str());
        let sp = spans_of(&mv);
        let fsw = ws_word_count(&sc);
        let parts = self.parts_for(merged, mt);
        assert(mv@.len() == sc@.len() + 2 + nc@.len());
        let total_len = mv.len();
        assert(sc.len() + 2 <= total_len);
        let off = sc.len() + 2;
        let ghost sv = section_view(*s);
        let ghost nv = section_view(*nx);
        let ghost pv = strings_view(path@);
        let ghost gparts = chunks_view(parts@);
        let ghost gsp = word_spans(merged@);
        let ghost total = chunk_views(old(out)@) + merged_chunks(file@, sv, nv, pv, gparts, gsp, fsw as int, 0);
        let mut j: usize = 0;
        while j < parts.len()
            invariant
                j <= parts@.len() == gparts.len(),
                gparts == chunks_view(parts@),
                sc@ == s.content@,
                nc@ == nx.content@,
                mv@ == merged@,
                off == sc@.len() + 2,
                fsw == ws_words_from(s.content@, 0),
                sv == section_view(*s),
                nv == section_view(*nx),
                pv == strings_view(path@),
                gsp == word_spans(merged@),
                sp@.len() == gsp.len(),
                forall|k: int|
                    0 <= k < sp@.len() ==> (#[trigger] sp@[k]).0 == gsp[k].0 && sp@[k].1 == gsp[k].1,
                s.start_line + newline_count(s.content@) <= usize::MAX,
                nx.start_line + newline_count(nx.content@) <= usize::MAX,
                total == chunk_views(old(out)@) + merged_chunks(file@, sv, nv, pv, gparts, gsp, fsw as int, 0),
                chunk_views(out@) + merged_chunks(file@, sv, nv, pv, gparts, gsp, fsw as int, j as int) == total,
            decreases parts@.len() - j,
        {
            let ghost rest = merged_chunks(file@, sv, nv, pv, gparts, gsp, fsw as int, j + 1);
            assert(gparts[j as int] == (parts@[j as int].0@, parts@[j as int].1 as int, parts@[j as int].2 as int));
            let st = parts[j].1;
            let en = parts[j].2;
            let (ls, le) = if sp.len() > 0 && st < sp.len() {
                let a = en.saturating_sub(1);
                let li = if a < sp.len() - 1 { a } else { sp.len() - 1 };
                let first = sp[st].0;
                let last = sp[li].1;
                proof {
                    lemma_line_at_bound(s.content@, first as int);
                    lemma_line_at_bound(s.content@, last as int);
                    lemma_line_at_bound(nx.content@, sub0(first as int, off as int));
                    lemma_line_at_bound(nx.content@, sub0(last as int, off as int));
                }
                let x = if st < fsw {
                    s.start_line + line_at_exec(&sc, first)
                } else {
                    nx.start_line + line_at_exec(&nc, first.saturating_sub(off))
                };
                let y = if li < fsw {
                    s.start_line + line_at_exec(&sc, last)
                } else {
                    nx.start_line + line_at_exec(&nc, last.saturating_sub(off))
                };
                (x, y)
            } else {
                (s.start_line, nx.end_line)
            };
            let id = make_id(file, s.start_line as u128 + j as u128, path, "merged");
            let ghost before = out@;
            out.push(
                Chunk {
                    id,
                    source_file: file.clone(),
                    line_start: ls,
                    line_end: le,
                    heading: Some(s.heading.title.clone()),
                    heading_path: clone_strings(path),
                    text: parts[j].0.clone(),
                },
            );
            proof {
                reveal_strlit("merged");
                assert("merged"@ =~= seq!['m', 'e', 'r', 'g', 'e', 'd']);
                let c = chunk_view(out@.last());
                assert(merged_chunks(file@, sv, nv, pv, gparts, gsp, fsw as int, j as int) == seq![c] + rest);
                assert(chunk_views(out@) =~= chunk_views(before).push(c));
                assert(chunk_views(out@) + rest =~= chunk_views(before) + (seq![c] + rest));
            }
            j += 1;
        }
        proof {
            assert(merged_chunks(file@, sv, nv, pv, gparts, gsp, fsw as int, j as int) =~= seq![]);
            assert(chunk_views(out@) =~= total);
        }
    }

    /// Chunk a single markdown file's contents
    pub fn chunk_file(&self, path: &str, content: &str) -> (r: Vec<Chunk>)
        requires
            self.settings().max_tokens > 0 || !all_untitled(document_sections(content@)),
        ensures
            chunk_views(r@) == file_chunks(self.settings(), path@, content@),
    {
        let file = to_string(path);
        let sections = self.extractor.extract_sections_from_content(content);
        let ghost secs = document_sections(content@);
        assert forall|k: int| 0 <= k < sections@.len() implies #[trigger] section_view(sections@[k])
            == secs[k] by {
            assert(section_is(sections@[k], secs[k]));
        }
        let mut titled = false;
        let mut k: usize = 0;
        while k < sections.len()
            invariant
                k <= sections@.len() == secs.len(),
                forall|j: int| 0 <= j < sections@.len() ==> #[trigger] section_view(sections@[j]) == secs[j],
                titled == exists|j: int| 0 <= j < k && (#[trigger] secs[j]).0.len() > 0,
            decreases sections@.len() - k,
        {
            assert(section_view(sections@[k as int]) == secs[k as int]);
            if !sections[k].heading.title.as_str().is_empty() {
                titled = true;
            }
            k += 1;
        }
        assert(titled == !all_untitled(secs));
        if !titled {
            return self.chunk_by_size(content, &file);
        }
        let v = chars_of(content);
        let line_count = line_ranges_of(&v).len();
        assert(lines(content@).len() == line_ranges(content@).len());
        let ghost cfg = self.settings();
        let ghost total = chunks_from(cfg, file@, secs, 0, seq![]);
        let mut chunks: Vec<Chunk> = Vec::new();
        let mut stack: Vec<(usize, String)> = Vec::new();
        assert(stack_view(stack@) =~= seq![]);
        assert(chunk_views(chunks@) =~= seq![]);
        let mut i: usize = 0;
        while i < sections.len()
            invariant
                i <= sections@.len() == secs.len(),
                secs == document_sections(content@),
                forall|j: int| 0 <= j < sections@.len() ==> #[trigger] section_view(sections@[j]) == secs[j],
                line_count == lines(content@).len(),
                cfg == self.settings(),
                total == chunks_from(cfg, file@, secs, 0, seq![]),
                chunk_views(chunks@) + chunks_from(cfg, file@, secs, i as int, stack_view(stack@)) == total,
            decreases sections@.len() - i,
        {
            let s = &sections[i];
            let ghost st0 = stack_view(stack@);
            assert(section_view(*s) == secs[i as int]);
            proof {
                lemma_section_lines(content@, i as int);
            }
            let level = s.heading.level as usize;
            let ghost popped = pop_to(stack_view(stack@), level as int);
            while stack.len() > 0 && stack[stack.len() - 1].0 >= level
                invariant
                    popped == pop_to(stack_view(stack@), level as int),
                decreases stack@.len(),
            {
                let ghost before = stack@;
                stack.pop();
                assert(stack_view(stack@) =~= stack_view(before).drop_last());
            }
            assert(popped == stack_view(stack@));
            let mut path: Vec<String> = Vec::new();
            let mut p: usize = 0;
            while p < stack.len()
                invariant
                    p <= stack@.len(),
                    strings_view(path@) == stack_titles(stack_view(stack@)).take(p as int),
                decreases stack@.len() - p,
            {
                let ghost before = path@;
                path.push(stack[p].1.clone());
                assert(strings_view(path@) =~= strings_view(before).push(stack@[p as int].1@));
                assert(stack_titles(stack_view(stack@)).take(p + 1) =~= stack_titles(
                    stack_view(stack@),
                ).take(p as int).push(stack@[p as int].1@));
                p += 1;
            }
            assert(stack_titles(stack_view(stack@)).take(p as int) =~= stack_titles(stack_view(stack@)));
            if !s.heading.title.as_str().is_empty() {
                let ghost before = stack@;
                stack.push((level, s.heading.title.clone()));
                assert(stack_view(stack@) =~= stack_view(before).push((level as int, s.heading.title@)));
            }
            let tokens = count_tokens(s.content.as_str());
            let mut merged_pair = false;
            if tokens < self.config.merge_threshold && i + 1 < sections.len() {
                let nx = &sections[i + 1];
                assert(section_view(*nx) == secs[i + 1]);
                proof {
                    lemma_section_lines(content@, i + 1);
                }
                let mut merged = s.content.clone();
                push_str(&mut merged, "\n\n");
                push_str(&mut merged, nx.content.as_str());
                proof {
                    reveal_strlit("\n\n");
                    assert(merged@ =~= merged_text(section_view(*s), section_view(*nx)));
                }
                let mt = count_tokens(merged.as_str());
                if mt - mt / 2 <= self.config.max_tokens {
                    let ghost before = chunk_views(chunks@);
                    self.emit_merged(&mut chunks, &file, s, nx, &merged, mt, &path);
                    merged_pair = true;
                    proof {
                        assert(merges(cfg, secs, i as int));
                        let m = merged_text(secs[i as int], secs[i + 1]);
                        let added = merged_chunks(
                            file@,
                            secs[i as int],
                            secs[i + 1],
                            strings_view(path@),
                            parts_of(m, words(m).len() as int, cfg.max_tokens as int, cfg.overlap_tokens as int),
                            word_spans(m),
                            ws_words_from(secs[i as int].3, 0),
                            0,
                        );
                        assert(chunks_from(cfg, file@, secs, i as int, st0) == added + chunks_from(
                            cfg,
                            file@,
                            secs,
                            i + 2,
                            stack_view(stack@),
                        ));
                        assert(chunk_views(chunks@) == before + added);
                        assert(chunk_views(chunks@) + chunks_from(cfg, file@, secs, i + 2, stack_view(stack@))
                            =~= before + chunks_from(cfg, file@, secs, i as int, st0));
                    }
                } else {
                    assert(!merges(cfg, secs, i as int));
                }
            } else {
                assert(!merges(cfg, secs, i as int));
            }
            if merged_pair {
                i += 2;
            } else {
                let ghost before = chunk_views(chunks@);
                self.emit_section(&mut chunks, &file, s, &path);
                proof {
                    let sv = secs[i as int];
                    let added = section_chunks(
                        file@,
                        cfg.min_chunk_size as int,
                        sv,
                        strings_view(path@),
                        parts_of(sv.3, words(sv.3).len() as int, cfg.max_tokens as int, cfg.overlap_tokens as int),
                        word_spans(sv.3),
                        0,
                    );
                    assert(chunks_from(cfg, file@, secs, i as int, st0) == added + chunks_from(
                        cfg,
                        file@,
                        secs,
                        i + 1,
                        stack_view(stack@),
                    ));
                    assert(chunk_views(chunks@) + chunks_from(cfg, file@, secs, i + 1, stack_view(stack@))
                        =~= before + chunks_from(cfg, file@, secs, i as int, st0));
                }
                i += 1;
            }
        }
        proof {
            assert(chunks_from(cfg, file@, secs, i as int, stack_view(stack@)) =~= seq![]);
            assert(chunk_views(chunks@) =~= total);
        }
        chunks
    }
}


/// Every chunk names `file`: as its source file, and at the start of its id (`file:`).
pub open spec fn names_file(cs: Seq<ChunkV>, file: Seq<char>) -> bool {
    forall|k: int|
        0 <= k < cs.len() ==> (#[trigger] cs[k]).source_file == file && cs[k].id.len() > file.len()
            && cs[k].id.take(file.len() + 1int) == file + seq![':']
}

proof fn lemma_names_file_add(a: Seq<ChunkV>, b: Seq<ChunkV>, file: Seq<char>)
    requires
        names_file(a, file),
        names_file(b, file),
    ensures
        names_file(a + b, file),
{
    assert forall|k: int| 0 <= k < (a + b).len() implies (#[trigger] (a + b)[k]).source_file == file
        && (a + b)[k].id.len() > file.len() && (a + b)[k].id.take(file.len() + 1int) == file + seq![':'] by {
        if k < a.len() {
            assert((a + b)[k] == a[k]);
        } else {
            assert((a + b)[k] == b[k - a.len()]);
        }
    }
}

proof fn lemma_id_names_file(file: Seq<char>, rest: Seq<char>)
    ensures
        (file + seq![':'] + rest).len() > file.len(),
        (file + seq![':'] + rest).take(file.len() + 1int) == file + seq![':'],
{
    assert((file + seq![':'] + rest).take(file.len() + 1int) =~= file + seq![':']);
}

proof fn lemma_size_chunks_name_file(c: Seq<char>, file: Seq<char>, max: int, min: int, start: int)
    ensures
        names_file(size_chunks_from(c, file, max, min, start), file),
    decreases word_spans(c).len() - start,
{
    let sp = word_spans(c);
    if !(start < 0 || start >= sp.len() || max <= 0) {
        let end = if start + max < sp.len() {
            start + max
        } else {
            sp.len() as int
        };
        lemma_size_chunks_name_file(c, file, max, min, end);
        let ls = line_at(c, sp[start].0);
        lemma_id_names_file(file, decimal(ls as nat));
        assert(file + seq![':'] + decimal(ls as nat) == file + seq![':'] + decimal(ls as nat));
        let rest = size_chunks_from(c, file, max, min, end);
        let text = join_with(span_words(c, sp, start, end), seq![' ']);
        if words(text).len() >= min {
            let one = seq![
                ChunkV {
                    id: file + seq![':'] + decimal(ls as nat),
                    source_file: file,
                    line_start: ls,
                    line_end: line_at(c, sp[end - 1].1),
                    heading: None,
                    heading_path: seq![],
                    text,
                },
            ];
            lemma_names_file_add(one, rest, file);
        }
    }
}

proof fn lemma_chunk_id_names_file(file: Seq<char>, n: int, path: Seq<Seq<char>>, dflt: Seq<char>)
    ensures
        chunk_id(file, n, path, dflt).len() > file.len(),
        chunk_id(file, n, path, dflt).take(file.len() + 1int) == file + seq![':'],
{
    let tail = decimal(n as nat) + seq![':'] + if path.len() > 0 {
        path.last()
    } else {
        dflt
    };
    assert(chunk_id(file, n, path, dflt) =~= file + seq![':'] + tail);
    lemma_id_names_file(file, tail);
}

proof fn lemma_merged_chunks_name_file(
    file: Seq<char>,
    s: (Seq<char>, int, int, Seq<char>, int, int),
    nx: (Seq<char>, int, int, Seq<char>, int, int),
    path: Seq<Seq<char>>,
    parts: Seq<(Seq<char>, int, int)>,
    sp: Seq<(int, int)>,
    fsw: int,
    j: int,
)
    ensures
        names_file(merged_chunks(file, s, nx, path, parts, sp, fsw, j), file),
    decreases parts.len() - j,
{
    if 0 <= j < parts.len() {
        lemma_merged_chunks_name_file(file, s, nx, path, parts, sp, fsw, j + 1);
        lemma_chunk_id_names_file(file, s.4 + j, path, seq!['m', 'e', 'r', 'g', 'e', 'd']);
        let all = merged_chunks(file, s, nx, path, parts, sp, fsw, j);
        let rest = merged_chunks(file, s, nx, path, parts, sp, fsw, j + 1);
        assert(all == seq![all[0]] + rest);
        lemma_names_file_add(seq![all[0]], rest, file);
    }
}

proof fn lemma_section_chunks_name_file(
    file: Seq<char>,
    min: int,
    s: (Seq<char>, int, int, Seq<char>, int, int),
    path: Seq<Seq<char>>,
    parts: Seq<(Seq<char>, int, int)>,
    sp: Seq<(int, int)>,
    j: int,
)
    ensures
        names_file(section_chunks(file, min, s, path, parts, sp, j), file),
    decreases parts.len() - j,
{
    if 0 <= j < parts.len() {
        lemma_section_chunks_name_file(file, min, s, path, parts, sp, j + 1);
        lemma_chunk_id_names_file(file, s.4 + j, path, seq!['s', 'e', 'c', 't', 'i', 'o', 'n']);
        let all = section_chunks(file, min, s, path, parts, sp, j);
        let rest = section_chunks(file, min, s, path, parts, sp, j + 1);
        if all != rest {
            assert(all == seq![all[0]] + rest);
            lemma_names_file_add(seq![all[0]], rest, file);
        }
    }
}

proof fn lemma_chunks_from_name_file(
    cfg: ChunkerConfig,
    file: Seq<char>,
    secs: Seq<(Seq<char>, int, int, Seq<char>, int, int)>,
    i: int,
    stack: Seq<(int, Seq<char>)>,
)
    ensures
        names_file(chunks_from(cfg, file, secs, i, stack), file),
    decreases secs.len() - i,
{
    if 0 <= i < secs.len() {
        let s = secs[i];
        let popped = pop_to(stack, s.1);
        let path = stack_titles(popped);
        let next_stack = if s.0.len() > 0 {
            popped.push((s.1, s.0))
        } else {
            popped
        };
        let max = cfg.max_tokens as int;
        let ov = cfg.overlap_tokens as int;
        if merges(cfg, secs, i) {
            let m = merged_text(s, secs[i + 1]);
            let parts = parts_of(m, words(m).len() as int, max, ov);
            lemma_merged_chunks_name_file(file, s, secs[i + 1], path, parts, word_spans(m), ws_words_from(s.3, 0), 0);
            lemma_chunks_from_name_file(cfg, file, secs, i + 2, next_stack);
            lemma_names_file_add(
                merged_chunks(file, s, secs[i + 1], path, parts, word_spans(m), ws_words_from(s.3, 0), 0),
                chunks_from(cfg, file, secs, i + 2, next_stack),
                file,
            );
        } else {
            let parts = parts_of(s.3, words(s.3).len() as int, max, ov);
            lemma_section_chunks_name_file(file, cfg.min_chunk_size as int, s, path, parts, word_spans(s.3), 0);
            lemma_chunks_from_name_file(cfg, file, secs, i + 1, next_stack);
            lemma_names_file_add(
                section_chunks(file, cfg.min_chunk_size as int, s, path, parts, word_spans(s.3), 0),
                chunks_from(cfg, file, secs, i + 1, next_stack),
                file,
            );
        }
    }
}

/// Every chunk of a file names that file: it is the chunk's source file, and the chunk's id
/// starts with it followed by a colon.
pub proof fn law_chunks_name_their_file(cfg: ChunkerConfig, file: Seq<char>, content: Seq<char>)
    ensures
        names_file(file_chunks(cfg, file, content), file),
{
    let secs = document_sections(content);
    if all_untitled(secs) {
        lemma_size_chunks_name_file(content, file, cfg.max_tokens as int, cfg.min_chunk_size as int, 0);
    } else {
        lemma_chunks_from_name_file(cfg, file, secs, 0, seq![]);
    }
}


// ---------------------------------------------------------------------------
// Line spans of a split section
// ---------------------------------------------------------------------------

/// `s` splits into the same words at ASCII whitespace as at any whitespace, and none of
/// them is cut into pieces: every whitespace character is ASCII whitespace, and every run
/// of other characters has at most `MAX_WORD_CHARS` characters.
pub open spec fn plain_words(s: Seq<char>) -> bool {
    &&& forall|i: int| 0 <= i < s.len() ==> (is_ws(#[trigger] s[i]) <==> is_ascii_ws(s[i]))
    &&& forall|j: int| 0 <= j < s.len() ==> #[trigger] span_end(s, j) - j <= MAX_WORD_CHARS
}

proof fn lemma_skips_agree(s: Seq<char>, i: int)
    requires
        plain_words(s),
        0 <= i,
    ensures
        skip_ws(s, i) == span_skip(s, i),
        run_end(s, i) == span_end(s, i),
    decreases s.len() - i,
{
    if i < s.len() {
        lemma_skips_agree(s, i + 1);
        assert(is_ws(s[i]) <==> is_ascii_ws(s[i]));
    }
}

/// The tokens of a text with plain words are its ASCII-whitespace words.
proof fn lemma_tokens_are_spans(s: Seq<char>, i: int)
    requires
        plain_words(s),
        0 <= i,
    ensures
        word_ranges_from(s, i) == spans_from(s, i),
    decreases s.len() - i,
{
    if i < s.len() {
        lemma_skips_agree(s, i);
        lemma_span_skip(s, i);
        let j = span_skip(s, i);
        if j < s.len() {
            lemma_skips_agree(s, j);
            lemma_span_end(s, j);
            let e = span_end(s, j);
            assert(span_end(s, j) - j <= MAX_WORD_CHARS);
            assert(chunk_ranges(e, e, MAX_WORD_CHARS as int) =~= seq![]);
            assert(chunk_ranges(j, e, MAX_WORD_CHARS as int) =~= seq![(j, e)]);
            lemma_tokens_are_spans(s, e);
        }
    }
}

proof fn lemma_line_at_mono(s: Seq<char>, p: int, q: int)
    requires
        0 <= p <= q,
    ensures
        line_at(s, p) <= line_at(s, q),
{
    let pc = if p < s.len() { p } else { s.len() as int };
    let qc = if q < s.len() { q } else { s.len() as int };
    lemma_newlines_before(s, pc, qc);
}

/// The chunks of parts `parts[j..]` of section `s` start no later than they end, and start
/// in the order of the parts, when the parts are word ranges in order.
proof fn lemma_section_chunk_lines(
    file: Seq<char>,
    min: int,
    s: (Seq<char>, int, int, Seq<char>, int, int),
    path: Seq<Seq<char>>,
    parts: Seq<(Seq<char>, int, int)>,
    j: int,
)
    requires
        0 <= j,
        forall|k: int|
            0 <= k < parts.len() ==> 0 <= (#[trigger] parts[k]).1 < parts[k].2 <= word_spans(
                s.3,
            ).len(),
        forall|k: int| 0 <= k < parts.len() - 1 ==> (#[trigger] parts[k]).1 <= parts[k + 1].1,
    ensures
        ({
            let sp = word_spans(s.3);
            let cs = section_chunks(file, min, s, path, parts, sp, j);
            &&& forall|k: int| 0 <= k < cs.len() ==> (#[trigger] cs[k]).line_start <= cs[k].line_end
            &&& forall|k: int|
                0 <= k < cs.len() - 1 ==> (#[trigger] cs[k]).line_start <= cs[k + 1].line_start
            &&& cs.len() > 0 ==> cs[0].line_start == s.4 + line_at(s.3, sp[parts[j].1].0)
        }),
    decreases parts.len() - j,
{
    let sp = word_spans(s.3);
    if j < parts.len() {
        lemma_section_chunk_lines(file, min, s, path, parts, j + 1);
        lemma_spans_from(s.3, 0);
        let st = parts[j].1;
        let en = parts[j].2;
        let li = last_index(en, sp.len() as int);
        assert(li == en - 1);
        assert(sp[st].0 <= sp[li].1) by {
            if li > st {
                assert(sp[st].1 <= sp[li].0);
            }
        }
        lemma_line_at_mono(s.3, sp[st].0, sp[li].1);
        let rest = section_chunks(file, min, s, path, parts, sp, j + 1);
        let cs = section_chunks(file, min, s, path, parts, sp, j);
        if j + 1 < parts.len() {
            let st2 = parts[j + 1].1;
            assert(sp[st].0 <= sp[st2].0) by {
                if st < st2 {
                    assert(sp[st].1 <= sp[st2].0);
                }
            }
            lemma_line_at_mono(s.3, sp[st].0, sp[st2].0);
        }
        if !(words(parts[j].0).len() < min && parts.len() == 1) {
            assert(cs == seq![cs[0]] + rest);
            assert forall|k: int| 0 <= k < cs.len() implies (#[trigger] cs[k]).line_start
                <= cs[k].line_end by {
                if k > 0 {
                    assert(cs[k] == rest[k - 1]);
                }
            }
            assert forall|k: int| 0 <= k < cs.len() - 1 implies (#[trigger] cs[k]).line_start
                <= cs[k + 1].line_start by {
                assert(cs[k + 1] == rest[k]);
                if k > 0 {
                    assert(cs[k] == rest[k - 1]);
                }
            }
        }
    }
}

/// When a section is cut into chunks, each chunk's lines run forward (its start line is
/// not after its end line) and the chunks' start lines never go back, for a section whose
/// words are plain (the same at ASCII and at any whitespace, none longer than a token) and
/// that starts no later than it ends.
pub proof fn law_section_chunk_lines(
    file: Seq<char>,
    min: int,
    s: (Seq<char>, int, int, Seq<char>, int, int),
    path: Seq<Seq<char>>,
    max: int,
    overlap: int,
)
    requires
        plain_words(s.3),
        max >= 1,
        overlap >= 0,
        s.4 <= s.5,
    ensures
        ({
            let parts = parts_of(s.3, words(s.3).len() as int, max, overlap);
            let cs = section_chunks(file, min, s, path, parts, word_spans(s.3), 0);
            &&& forall|k: int| 0 <= k < cs.len() ==> (#[trigger] cs[k]).line_start <= cs[k].line_end
            &&& forall|k: int|
                0 <= k < cs.len() - 1 ==> (#[trigger] cs[k]).line_start <= cs[k + 1].line_start
        }),
{
    let n = words(s.3).len() as int;
    let sp = word_spans(s.3);
    assert(sp.len() == n) by {
        lemma_tokens_are_spans(s.3, 0);
    }
    let parts = parts_of(s.3, n, max, overlap);
    if n == 0 {
        assert(parts.len() == 1);
        assert(section_chunks(file, min, s, path, parts, sp, 1) =~= seq![]);
    } else if n <= max {
        lemma_section_chunk_lines(file, min, s, path, parts, 0);
    } else {
        lemma_split_parts_in_order(s.3, max, overlap);
        lemma_section_chunk_lines(file, min, s, path, parts, 0);
    }
}

/// The overlapping parts of a text with more than `max` words are word ranges in order.
proof fn lemma_split_parts_in_order(t: Seq<char>, max: int, overlap: int)
    requires
        max >= 1,
        overlap >= 0,
        words(t).len() > max,
    ensures
        ({
            let parts = spec_tokenize_indexed(t, max, overlap);
            &&& forall|k: int|
                0 <= k < parts.len() ==> 0 <= (#[trigger] parts[k]).1 < parts[k].2 <= words(t).len()
            &&& forall|k: int| 0 <= k < parts.len() - 1 ==> (#[trigger] parts[k]).1 <= parts[k + 1].1
        }),
{
    let n = words(t).len() as int;
    let ov = clamp_overlap(max, overlap);
    lemma_windows_within(n, max, ov, 0);
    law_windows_cover_all_words(t, max, overlap);
    let w = windows_from(n, max, ov, 0);
    let c = spec_tokenize_indexed(t, max, overlap);
    assert forall|k: int| 0 <= k < c.len() implies 0 <= (#[trigger] c[k]).1 < c[k].2 <= n by {
        assert(c[k].1 == w[k].0 && c[k].2 == w[k].1);
    }
}

// ---------------------------------------------------------------------------
// Chunk ids
// ---------------------------------------------------------------------------

/// `id` begins with `file:n:`, `n` in decimal.
pub open spec fn names_line(id: Seq<char>, file: Seq<char>, n: int) -> bool {
    let p = file.len() + 1int;
    let d = decimal(n as nat);
    &&& n >= 0
    &&& id.len() > p + d.len()
    &&& id.subrange(0, file.len() as int) == file
    &&& id[file.len() as int] == ':'
    &&& id.subrange(p, p + d.len()) == d
    &&& id[p + d.len()] == ':'
}

/// An id names one line only.
pub proof fn lemma_names_one_line(id: Seq<char>, file: Seq<char>, n1: int, n2: int)
    requires
        names_line(id, file, n1),
        names_line(id, file, n2),
    ensures
        n1 == n2,
{
    let p = file.len() + 1int;
    let d1 = decimal(n1 as nat);
    let d2 = decimal(n2 as nat);
    lemma_decimal_digits(n1 as nat);
    lemma_decimal_digits(n2 as nat);
    if d1.len() < d2.len() {
        assert(id[p + d1.len()] == d2[d1.len() as int]);
        assert(is_digit(d2[d1.len() as int]));
    } else if d2.len() < d1.len() {
        assert(id[p + d2.len()] == d1[d2.len() as int]);
        assert(is_digit(d1[d2.len() as int]));
    } else {
        assert(d1 =~= d2);
    }
}

proof fn lemma_chunk_id_names_line(file: Seq<char>, n: int, path: Seq<Seq<char>>, dflt: Seq<char>)
    requires
        n >= 0,
    ensures
        names_line(chunk_id(file, n, path, dflt), file, n),
{
    let id = chunk_id(file, n, path, dflt);
    let p = file.len() + 1int;
    let d = decimal(n as nat);
    assert(id.subrange(0, file.len() as int) =~= file);
    assert(id[file.len() as int] == ':');
    assert(id.subrange(p, p + d.len()) =~= d);
    assert(id[p + d.len()] == ':');
}

proof fn lemma_section_chunk_numbers(
    file: Seq<char>,
    min: int,
    s: (Seq<char>, int, int, Seq<char>, int, int),
    path: Seq<Seq<char>>,
    parts: Seq<(Seq<char>, int, int)>,
    sp: Seq<(int, int)>,
    j: int,
)
    requires
        s.4 >= 0,
        0 <= j,
    ensures
        ({
            let cs = section_chunks(file, min, s, path, parts, sp, j);
            &&& forall|k: int| 0 <= k < cs.len() ==> names_line(#[trigger] cs[k].id, file, s.4 + j + k)
            &&& cs.len() <= parts.len() - j || cs.len() == 0
            &&& parts.len() == 1 ==> cs.len() <= 1
        }),
    decreases parts.len() - j,
{
    if j < parts.len() {
        lemma_section_chunk_numbers(file, min, s, path, parts, sp, j + 1);
        let rest = section_chunks(file, min, s, path, parts, sp, j + 1);
        let cs = section_chunks(file, min, s, path, parts, sp, j);
        if parts.len() == 1 {
            assert(rest =~= seq![]);
        }
        if !(words(parts[j].0).len() < min && parts.len() == 1) {
            lemma_chunk_id_names_line(file, s.4 + j, path, seq!['s', 'e', 'c', 't', 'i', 'o', 'n']);
            assert forall|k: int| 0 <= k < cs.len() implies names_line(
                #[trigger] cs[k].id,
                file,
                s.4 + j + k,
            ) by {
                if k > 0 {
                    assert(cs[k] == rest[k - 1]);
                }
            }
        }
    }
}

/// The chunks of a section are numbered from its start line: the id of its `k`-th chunk
/// begins with `file:n:` where `n` is the section's start line plus `k`.
pub proof fn law_section_chunk_ids(
    file: Seq<char>,
    min: int,
    s: (Seq<char>, int, int, Seq<char>, int, int),
    path: Seq<Seq<char>>,
    max: int,
    overlap: int,
)
    requires
        s.4 >= 0,
    ensures
        ({
            let parts = parts_of(s.3, words(s.3).len() as int, max, overlap);
            let cs = section_chunks(file, min, s, path, parts, word_spans(s.3), 0);
            forall|k: int| 0 <= k < cs.len() ==> names_line(#[trigger] cs[k].id, file, s.4 + k)
        }),
{
    let parts = parts_of(s.3, words(s.3).len() as int, max, overlap);
    lemma_section_chunk_numbers(file, min, s, path, parts, word_spans(s.3), 0);
}


/// Every section fits in one chunk, alone and together with the next one.
pub open spec fn sections_fit(cfg: ChunkerConfig, secs: Seq<(Seq<char>, int, int, Seq<char>, int, int)>) -> bool {
    forall|k: int|
        0 <= k < secs.len() ==> words((#[trigger] secs[k]).3).len() <= cfg.max_tokens && (k + 1
            < secs.len() ==> words(merged_text(secs[k], secs[k + 1])).len() <= cfg.max_tokens)
}

/// The sections of a document start at lines counted from 0, each after the one before.
proof fn lemma_section_starts(content: Seq<char>)
    ensures
        ({
            let secs = document_sections(content);
            &&& forall|k: int| 0 <= k < secs.len() ==> (#[trigger] secs[k]).4 >= 0
            &&& forall|a: int, b: int| 0 <= a < b < secs.len() ==> (#[trigger] secs[a]).4 < (#[trigger] secs[b]).4
        }),
{
    let ls = lines(content);
    let es = outline_entries(content);
    lemma_entries_bounds(ls, 0, 0);
    lemma_entries_increasing(ls, 0, 0);
    let secs = document_sections(content);
    let first = if es.len() > 0 { es[0].2 - 1 } else { ls.len() as int };
    let pre = section_body(ls, 0, first);
    let lead: Seq<(Seq<char>, int, int, Seq<char>, int, int)> = if words(pre).len() > 0 {
        seq![(Seq::<char>::empty(), 0int, 0int, pre, 0int, first)]
    } else {
        seq![]
    };
    let rest = Seq::new(es.len(), |i: int| chunk_section_at(ls, es, i));
    assert(secs == lead + rest);
    assert forall|k: int| 0 <= k < secs.len() implies (#[trigger] secs[k]).4 >= 0 by {
        if k >= lead.len() {
            assert(secs[k] == rest[k - lead.len()]);
            assert(es[k - lead.len()].2 >= 1);
        }
    }
    assert forall|a: int, b: int| 0 <= a < b < secs.len() implies (#[trigger] secs[a]).4 < (
    #[trigger] secs[b]).4 by {
        assert(secs[b] == rest[b - lead.len()]);
        assert(es[b - lead.len()].2 >= 1);
        if a >= lead.len() {
            assert(secs[a] == rest[a - lead.len()]);
            assert(es[a - lead.len()].2 < es[b - lead.len()].2);
        }
    }
}

/// The chunks of sections `secs[i..]` that each fit in one chunk: one chunk at most per
/// section or merged pair, whose id names that section's start line; the lines named are
/// returned, in increasing order.
proof fn lemma_unit_numbers(
    cfg: ChunkerConfig,
    file: Seq<char>,
    secs: Seq<(Seq<char>, int, int, Seq<char>, int, int)>,
    i: int,
    stack: Seq<(int, Seq<char>)>,
) -> (nums: Seq<int>)
    requires
        0 <= i,
        sections_fit(cfg, secs),
        forall|k: int| 0 <= k < secs.len() ==> (#[trigger] secs[k]).4 >= 0,
        forall|a: int, b: int| 0 <= a < b < secs.len() ==> (#[trigger] secs[a]).4 < (#[trigger] secs[b]).4,
    ensures
        ({
            let cs = chunks_from(cfg, file, secs, i, stack);
            &&& nums.len() == cs.len()
            &&& forall|a: int| 0 <= a < cs.len() ==> names_line(#[trigger] cs[a].id, file, nums[a])
            &&& forall|a: int, b: int| 0 <= a < b < nums.len() ==> #[trigger] nums[a] < #[trigger] nums[b]
            &&& forall|a: int| 0 <= a < nums.len() ==> secs[i].4 <= #[trigger] nums[a]
        }),
    decreases secs.len() - i,
{
    if i >= secs.len() {
        seq![]
    } else {
        let s = secs[i];
        let popped = pop_to(stack, s.1);
        let path = stack_titles(popped);
        let next_stack = if s.0.len() > 0 {
            popped.push((s.1, s.0))
        } else {
            popped
        };
        let max = cfg.max_tokens as int;
        let ov = cfg.overlap_tokens as int;
        let cs = chunks_from(cfg, file, secs, i, stack);
        assert(words(s.3).len() <= cfg.max_tokens);
        if merges(cfg, secs, i) {
            let m = merged_text(s, secs[i + 1]);
            assert(words(m).len() <= cfg.max_tokens);
            let parts = parts_of(m, words(m).len() as int, max, ov);
            let head = merged_chunks(file, s, secs[i + 1], path, parts, word_spans(m), ws_words_from(s.3, 0), 0);
            assert(merged_chunks(file, s, secs[i + 1], path, parts, word_spans(m), ws_words_from(s.3, 0), 1) =~= seq![]);
            assert(head.len() == 1);
            lemma_chunk_id_names_line(file, s.4 + 0, path, seq!['m', 'e', 'r', 'g', 'e', 'd']);
            let rest_nums = lemma_unit_numbers(cfg, file, secs, i + 2, next_stack);
            let rest = chunks_from(cfg, file, secs, i + 2, next_stack);
            assert(cs == head + rest);
            let nums = seq![s.4] + rest_nums;
            assert forall|a: int| 0 <= a < cs.len() implies names_line(#[trigger] cs[a].id, file, nums[a]) by {
                if a > 0 {
                    assert(cs[a] == rest[a - 1]);
                }
            }
            assert forall|a: int| 0 <= a < nums.len() implies secs[i].4 <= #[trigger] nums[a] by {
                if a > 0 {
                    assert(nums[a] == rest_nums[a - 1]);
                    assert(secs[i].4 < secs[i + 2].4);
                }
            }
            assert forall|a: int, b: int| 0 <= a < b < nums.len() implies #[trigger] nums[a] < #[trigger] nums[b] by {
                assert(nums[b] == rest_nums[b - 1]);
                assert(secs[i].4 < secs[i + 2].4);
                if a > 0 {
                    assert(nums[a] == rest_nums[a - 1]);
                }
            }
            nums
        } else {
            let parts = parts_of(s.3, words(s.3).len() as int, max, ov);
            let head = section_chunks(file, cfg.min_chunk_size as int, s, path, parts, word_spans(s.3), 0);
            lemma_section_chunk_numbers(file, cfg.min_chunk_size as int, s, path, parts, word_spans(s.3), 0);
            assert(head.len() <= 1);
            let rest_nums = lemma_unit_numbers(cfg, file, secs, i + 1, next_stack);
            let rest = chunks_from(cfg, file, secs, i + 1, next_stack);
            assert(cs == head + rest);
            let hn: Seq<int> = if head.len() == 1 { seq![s.4] } else { seq![] };
            let nums = hn + rest_nums;
            assert forall|a: int| 0 <= a < cs.len() implies names_line(#[trigger] cs[a].id, file, nums[a]) by {
                if a < head.len() {
                    assert(cs[a] == head[a]);
                    assert(names_line(head[0].id, file, s.4 + 0 + 0));
                } else {
                    assert(cs[a] == rest[a - head.len()]);
                    assert(nums[a] == rest_nums[a - head.len()]);
                }
            }
            assert forall|a: int| 0 <= a < nums.len() implies secs[i].4 <= #[trigger] nums[a] by {
                if a >= hn.len() {
                    assert(nums[a] == rest_nums[a - hn.len()]);
                    if i + 1 < secs.len() {
                        assert(secs[i].4 < secs[i + 1].4);
                    }
                }
            }
            assert forall|a: int, b: int| 0 <= a < b < nums.len() implies #[trigger] nums[a] < #[trigger] nums[b] by {
                assert(nums[b] == rest_nums[b - hn.len()]);
                if i + 1 < secs.len() {
                    assert(secs[i].4 < secs[i + 1].4);
                }
                if a >= hn.len() {
                    assert(nums[a] == rest_nums[a - hn.len()]);
                }
            }
            nums
        }
    }
}

/// The chunks of a file with headings have distinct ids when no section has to be split:
/// each chunk's id names the start line of the section it comes from, and sections start
/// on different lines.
pub proof fn law_chunk_ids_distinct(cfg: ChunkerConfig, file: Seq<char>, content: Seq<char>)
    requires
        !all_untitled(document_sections(content)),
        sections_fit(cfg, document_sections(content)),
    ensures
        ({
            let cs = file_chunks(cfg, file, content);
            forall|a: int, b: int| 0 <= a < b < cs.len() ==> (#[trigger] cs[a]).id != (#[trigger] cs[b]).id
        }),
{
    let secs = document_sections(content);
    lemma_section_starts(content);
    let nums = lemma_unit_numbers(cfg, file, secs, 0, seq![]);
    let cs = file_chunks(cfg, file, content);
    assert forall|a: int, b: int| 0 <= a < b < cs.len() implies (#[trigger] cs[a]).id != (
    #[trigger] cs[b]).id by {
        if cs[a].id == cs[b].id {
            assert(names_line(cs[a].id, file, nums[a]));
            assert(names_line(cs[b].id, file, nums[b]));
            lemma_names_one_line(cs[a].id, file, nums[a], nums[b]);
            assert(nums[a] < nums[b]);
        }
    }
}

} // verus!

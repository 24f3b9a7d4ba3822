//! Word-based token estimates and windowing used to size search chunks.
//!
//! A token is a whitespace-delimited word, except that a word longer than `MAX_WORD_CHARS`
//! characters is cut into pieces of at most that many characters, so that text without
//! whitespace (minified data, long URLs) still splits into bounded units.
use vstd::prelude::*;
use vstd::string::StringSliceAdditionalSpecFns;

use crate::text::{
    byte_offset, byte_offsets, chars_of, is_whitespace, is_ws, join_ranges, strings_view, join_with, pieces, ranges_within,
};

verus! {

/// Longest piece of a single word, in characters, before it is split further.
pub const MAX_WORD_CHARS: usize = 32;

// ---------------------------------------------------------------------------
// Words
// ---------------------------------------------------------------------------

/// First index at or after `i` that is not whitespace, else `s.len()`.
pub open spec fn skip_ws(s: Seq<char>, i: int) -> int
    decreases s.len() - i,
{
    if i < s.len() && is_ws(s[i]) {
        skip_ws(s, i + 1)
    } else {
        i
    }
}

/// First index at or after `i` that is whitespace, else `s.len()`.
pub open spec fn run_end(s: Seq<char>, i: int) -> int
    decreases s.len() - i,
{
    if i < s.len() && !is_ws(s[i]) {
        run_end(s, i + 1)
    } else {
        i
    }
}

pub proof fn lemma_skip_ws(s: Seq<char>, i: int)
    ensures
        i <= skip_ws(s, i),
        i <= s.len() ==> skip_ws(s, i) <= s.len(),
        skip_ws(s, i) < s.len() ==> !is_ws(s[skip_ws(s, i)]),
    decreases s.len() - i,
{
    if i < s.len() && is_ws(s[i]) {
        lemma_skip_ws(s, i + 1);
    }
}

pub proof fn lemma_run_end(s: Seq<char>, i: int)
    ensures
        i <= run_end(s, i),
        i <= s.len() ==> run_end(s, i) <= s.len(),
        0 <= i < s.len() && !is_ws(s[i]) ==> i < run_end(s, i),
    decreases s.len() - i,
{
    if i < s.len() && !is_ws(s[i]) {
        lemma_run_end(s, i + 1);
    }
}

/// `[i, e)` cut into consecutive ranges of at most `m` positions.
pub open spec fn chunk_ranges(i: int, e: int, m: int) -> Seq<(int, int)>
    decreases e - i,
{
    if i >= e || m <= 0 {
        seq![]
    } else {
        let n = if i + m < e { i + m } else { e };
        seq![(i, n)] + chunk_ranges(n, e, m)
    }
}

/// Character ranges of the tokens of `s` from position `i` on.
pub open spec fn word_ranges_from(s: Seq<char>, i: int) -> Seq<(int, int)>
    decreases s.len() - i,
{
    if i < 0 || i >= s.len() {
        seq![]
    } else {
        let j = skip_ws(s, i);
        if j >= s.len() {
            seq![]
        } else {
            let e = run_end(s, j);
            proof {
                lemma_skip_ws(s, i);
                lemma_run_end(s, j);
            }
            chunk_ranges(j, e, MAX_WORD_CHARS as int) + word_ranges_from(s, e)
        }
    }
}

/// Character ranges of the tokens of `s`, in order.
pub open spec fn word_ranges(s: Seq<char>) -> Seq<(int, int)> {
    word_ranges_from(s, 0)
}

/// The tokens of `s`: whitespace-separated words, each cut into pieces of at most
/// `MAX_WORD_CHARS` characters.
pub open spec fn words(s: Seq<char>) -> Seq<Seq<char>> {
    word_ranges(s).map_values(|r: (int, int)| s.subrange(r.0, r.1))
}

pub open spec fn int_ranges(rs: Seq<(usize, usize)>) -> Seq<(int, int)> {
    rs.map_values(|r: (usize, usize)| (r.0 as int, r.1 as int))
}

pub proof fn lemma_chunk_ranges_within(i: int, e: int, m: int)
    requires
        m >= 1,
    ensures
        forall|k: int|
            0 <= k < chunk_ranges(i, e, m).len() ==> i <= (#[trigger] chunk_ranges(i, e, m)[k]).0
                < chunk_ranges(i, e, m)[k].1 <= e && chunk_ranges(i, e, m)[k].1
                - chunk_ranges(i, e, m)[k].0 <= m,
    decreases e - i,
{
    if i < e {
        let n = if i + m < e { i + m } else { e };
        lemma_chunk_ranges_within(n, e, m);
        let rest = chunk_ranges(n, e, m);
        assert forall|k: int| 0 <= k < chunk_ranges(i, e, m).len() implies i <= (
        #[trigger] chunk_ranges(i, e, m)[k]).0 < chunk_ranges(i, e, m)[k].1 <= e && chunk_ranges(
            i,
            e,
            m,
        )[k].1 - chunk_ranges(i, e, m)[k].0 <= m by {
            if k > 0 {
                assert(chunk_ranges(i, e, m)[k] == rest[k - 1]);
            }
        }
    }
}

pub proof fn lemma_word_ranges_within(s: Seq<char>, i: int)
    requires
        0 <= i,
    ensures
        forall|k: int|
            0 <= k < word_ranges_from(s, i).len() ==> i <= (#[trigger] word_ranges_from(s, i)[k]).0
                < word_ranges_from(s, i)[k].1 <= s.len(),
    decreases s.len() - i,
{
    if i < s.len() {
        let j = skip_ws(s, i);
        lemma_skip_ws(s, i);
        if j < s.len() {
            let e = run_end(s, j);
            lemma_run_end(s, j);
            lemma_chunk_ranges_within(j, e, 32);
            lemma_word_ranges_within(s, e);
            let a = chunk_ranges(j, e, 32);
            let b = word_ranges_from(s, e);
            assert forall|k: int| 0 <= k < word_ranges_from(s, i).len() implies i <= (
            #[trigger] word_ranges_from(s, i)[k]).0 < word_ranges_from(s, i)[k].1 <= s.len() by {
                if k < a.len() {
                    assert(word_ranges_from(s, i)[k] == a[k]);
                } else {
                    assert(word_ranges_from(s, i)[k] == b[k - a.len()]);
                }
            }
        }
    }
}

/// Character ranges of the tokens of `v`.
pub fn token_ranges(v: &Vec<char>) -> (r: Vec<(usize, usize)>)
    ensures
        int_ranges(r@) == word_ranges(v@),
        ranges_within(r@, v@.len() as int),
{
    let mut out: Vec<(usize, usize)> = Vec::new();
    let mut i: usize = 0;
    let ghost target = word_ranges(v@);
    proof {
        lemma_word_ranges_within(v@, 0);
    }
    while i < v.len()
        invariant
            i <= v.len(),
            target == word_ranges(v@),
            int_ranges(out@) + word_ranges_from(v@, i as int) == target,
            ranges_within(out@, v@.len() as int),
        decreases v.len() - i,
    {
        let mut j = i;
        while j < v.len() && is_whitespace(v[j])
            invariant
                i <= j <= v.len(),
                skip_ws(v@, i as int) == skip_ws(v@, j as int),
            decreases v.len() - j,
        {
            j += 1;
        }
        if j >= v.len() {
            assert(word_ranges_from(v@, i as int) =~= seq![]);
            assert(int_ranges(out@) + word_ranges_from(v@, v@.len() as int) =~= target);
            i = v.len();
        } else {
            let mut e = j;
            while e < v.len() && !is_whitespace(v[e])
                invariant
                    j <= e <= v.len(),
                    run_end(v@, j as int) == run_end(v@, e as int),
                decreases v.len() - e,
            {
                e += 1;
            }
            proof {
                lemma_run_end(v@, j as int);
                assert(word_ranges_from(v@, i as int) == chunk_ranges(j as int, e as int, 32)
                    + word_ranges_from(v@, e as int));
            }
            let mut c = j;
            while c < e
                invariant
                    j <= c <= e <= v.len(),
                    int_ranges(out@) + chunk_ranges(c as int, e as int, 32) + word_ranges_from(
                        v@,
                        e as int,
                    ) == target,
                    ranges_within(out@, v@.len() as int),
                decreases e - c,
            {
                let n = if e - c > MAX_WORD_CHARS { c + MAX_WORD_CHARS } else { e };
                let ghost before = out@;
                out.push((c, n));
                assert(int_ranges(out@) =~= int_ranges(before).push((c as int, n as int)));
                assert(chunk_ranges(c as int, e as int, 32) == seq![(c as int, n as int)]
                    + chunk_ranges(n as int, e as int, 32));
                assert(int_ranges(out@) + chunk_ranges(n as int, e as int, 32) =~= int_ranges(
                    before,
                ) + chunk_ranges(c as int, e as int, 32));
                c = n;
            }
            assert(chunk_ranges(e as int, e as int, 32) =~= seq![]);
            assert(int_ranges(out@) + word_ranges_from(v@, e as int) =~= int_ranges(out@)
                + chunk_ranges(e as int, e as int, 32) + word_ranges_from(v@, e as int));
            i = e;
        }
    }
    assert(word_ranges_from(v@, i as int) =~= seq![]);
    assert(int_ranges(out@) =~= target);
    out
}

pub proof fn lemma_pieces_are_words(v: Seq<char>, rs: Seq<(usize, usize)>, lo: int, hi: int)
    requires
        int_ranges(rs) == word_ranges(v),
        0 <= lo <= hi <= rs.len(),
    ensures
        pieces(v, rs, lo, hi) == words(v).subrange(lo, hi),
{
    assert(int_ranges(rs).len() == rs.len());
    assert forall|k: int| 0 <= k < hi - lo implies #[trigger] pieces(v, rs, lo, hi)[k] == words(
        v,
    ).subrange(lo, hi)[k] by {
        assert(int_ranges(rs)[lo + k] == (rs[lo + k].0 as int, rs[lo + k].1 as int));
    }
    assert(pieces(v, rs, lo, hi) =~= words(v).subrange(lo, hi));
}

/// Count approximate tokens in text by counting whitespace-separated words
/// (with long words further split — see `words`). This is an
/// approximation - actual tokenizers may produce different counts.
pub fn count_tokens(text: &str) -> (r: usize)
    ensures
        r == words(text@).len(),
{
    let v = chars_of(text);
    let rs = token_ranges(&v);
    assert(int_ranges(rs@).len() == rs@.len());
    rs.len()
}

// ---------------------------------------------------------------------------
// Windows
// ---------------------------------------------------------------------------

/// Word windows `[start, end)` over `n` words: each takes up to `max` words, and the next
/// starts `ov` words before the previous one ends (or right after it, when that would not
/// advance).
pub open spec fn windows_from(n: int, max: int, ov: int, start: int) -> Seq<(int, int)>
    decreases n - start,
{
    if start >= n || max <= 0 || start < 0 || ov < 0 {
        seq![]
    } else {
        let end = if start + max < n { start + max } else { n };
        let advance = if end >= n { n } else { end - ov };
        let next = if advance <= start { end } else { advance };
        seq![(start, end)] + windows_from(n, max, ov, next)
    }
}

/// The overlap that windows use: `overlap` clamped so that each window advances.
pub open spec fn clamp_overlap(max: int, overlap: int) -> int {
    if overlap < max - 1 {
        overlap
    } else {
        max - 1
    }
}

/// The words of a window joined with single spaces.
pub open spec fn window_text(ws: Seq<Seq<char>>, w: (int, int)) -> Seq<char> {
    join_with(ws.subrange(w.0, w.1), seq![' '])
}

/// The chunks `tokenize_with_overlap_indexed` returns: each window's text with its word range.
pub open spec fn spec_tokenize_indexed(text: Seq<char>, max: int, overlap: int) -> Seq<
    (Seq<char>, int, int),
> {
    let ws = words(text);
    if max == 0 || ws.len() == 0 {
        seq![(seq![], 0, 0)]
    } else {
        windows_from(ws.len() as int, max, clamp_overlap(max, overlap), 0).map_values(
            |w: (int, int)| (window_text(ws, w), w.0, w.1),
        )
    }
}

/// The chunks `tokenize_with_overlap` returns: the texts of the indexed chunks.
pub open spec fn spec_tokenize_with_overlap(text: Seq<char>, max: int, overlap: int) -> Seq<
    Seq<char>,
> {
    spec_tokenize_indexed(text, max, overlap).map_values(|c: (Seq<char>, int, int)| c.0)
}

/// Consecutive non-overlapping windows of `max` words from `start` on.
pub open spec fn blocks_from(n: int, max: int, start: int) -> Seq<(int, int)>
    decreases n - start,
{
    if start >= n || max <= 0 || start < 0 {
        seq![]
    } else {
        let end = if start + max < n { start + max } else { n };
        seq![(start, end)] + blocks_from(n, max, end)
    }
}

/// The chunks `tokenize_fixed` returns.
pub open spec fn spec_tokenize_fixed(text: Seq<char>, max: int) -> Seq<Seq<char>> {
    let ws = words(text);
    if max == 0 || ws.len() == 0 {
        seq![seq![]]
    } else {
        blocks_from(ws.len() as int, max, 0).map_values(|w: (int, int)| window_text(ws, w))
    }
}

pub open spec fn chunks_view(v: Seq<(String, usize, usize)>) -> Seq<(Seq<char>, int, int)> {
    v.map_values(|c: (String, usize, usize)| (c.0@, c.1 as int, c.2 as int))
}

pub proof fn lemma_windows_within(n: int, max: int, ov: int, start: int)
    requires
        0 <= ov < max,
        0 <= start,
    ensures
        forall|k: int|
            0 <= k < windows_from(n, max, ov, start).len() ==> start <= (
            #[trigger] windows_from(n, max, ov, start)[k]).0 < windows_from(n, max, ov, start)[k].1
                <= n,
    decreases n - start,
{
    if start < n {
        let end = if start + max < n { start + max } else { n };
        let advance = if end >= n { n } else { end - ov };
        let next = if advance <= start { end } else { advance };
        lemma_windows_within(n, max, ov, next);
        let rest = windows_from(n, max, ov, next);
        assert forall|k: int| 0 <= k < windows_from(n, max, ov, start).len() implies start <= (
        #[trigger] windows_from(n, max, ov, start)[k]).0 < windows_from(n, max, ov, start)[k].1
            <= n by {
            if k > 0 {
                assert(windows_from(n, max, ov, start)[k] == rest[k - 1]);
            }
        }
    }
}

/// Split text into overlapping chunks, returning each chunk's text along with its
/// start and end word indices (relative to the input's word array).
///
/// Returns `Vec<(chunk_text, start_word_idx, end_word_idx_exclusive)>` where
/// `start..end` covers exactly the words that produced the chunk.
pub fn tokenize_with_overlap_indexed(text: &str, max_tokens: usize, overlap_tokens: usize) -> (r:
    Vec<(String, usize, usize)>)
    ensures
        chunks_view(r@) == spec_tokenize_indexed(text@, max_tokens as int, overlap_tokens as int),
{
    let v = chars_of(text);
    let rs = token_ranges(&v);
    let ghost ws = words(text@);
    assert(int_ranges(rs@).len() == rs@.len());
    if max_tokens == 0 || rs.len() == 0 {
        let mut out: Vec<(String, usize, usize)> = Vec::new();
        out.push((String::new(), 0, 0));
        assert(chunks_view(out@) =~= seq![(Seq::<char>::empty(), 0int, 0int)]);
        return out;
    }
    let n = rs.len();
    let overlap = if overlap_tokens < max_tokens - 1 { overlap_tokens } else { max_tokens - 1 };
    let ghost ov = overlap as int;
    let ghost target = windows_from(n as int, max_tokens as int, ov, 0);
    proof {
        reveal_strlit(" ");
        lemma_windows_within(n as int, max_tokens as int, ov, 0);
    }
    let mut chunks: Vec<(String, usize, usize)> = Vec::new();
    let mut start: usize = 0;
    while start < n
        invariant
            0 <= start <= n == rs@.len(),
            n == ws.len(),
            ws == words(v@),
            v@ == text@,
            int_ranges(rs@) == word_ranges(v@),
            ranges_within(rs@, v@.len() as int),
            1 <= max_tokens,
            0 <= ov < max_tokens,
            ov == overlap,
            " "@ == seq![' '],
            target == windows_from(n as int, max_tokens as int, ov, 0),
            chunks_view(chunks@) + windows_from(n as int, max_tokens as int, ov, start as int).map_values(
                |w: (int, int)| (window_text(ws, w), w.0, w.1),
            ) == target.map_values(|w: (int, int)| (window_text(ws, w), w.0, w.1)),
        decreases n - start,
    {
        let end = if max_tokens < n - start { start + max_tokens } else { n };
        let text_chunk = join_ranges(&v, &rs, start, end, " ");
        proof {
            lemma_pieces_are_words(v@, rs@, start as int, end as int);
        }
        let ghost before = chunks@;
        chunks.push((text_chunk, start, end));
        let advance = if end >= n { n } else { end - overlap };
        let next = if advance <= start { end } else { advance };
        proof {
            let f = |w: (int, int)| (window_text(ws, w), w.0, w.1);
            let here = windows_from(n as int, max_tokens as int, ov, start as int);
            let there = windows_from(n as int, max_tokens as int, ov, next as int);
            assert(here == seq![(start as int, end as int)] + there);
            assert(here.map_values(f) =~= seq![f((start as int, end as int))] + there.map_values(f));
            assert(chunks_view(chunks@) =~= chunks_view(before).push(f((start as int, end as int))));
        }
        start = next;
    }
    proof {
        let f = |w: (int, int)| (window_text(ws, w), w.0, w.1);
        assert(windows_from(n as int, max_tokens as int, ov, start as int).map_values(f) =~= seq![]);
        assert(chunks_view(chunks@) =~= target.map_values(f));
    }
    chunks
}

/// Split text into chunks respecting a maximum token budget.
/// Splits at word boundaries and produces overlapping windows when the text exceeds the budget.
pub fn tokenize_with_overlap(text: &str, max_tokens: usize, overlap_tokens: usize) -> (r: Vec<
    String,
>)
    ensures
        strings_view(r@) == spec_tokenize_with_overlap(
            text@,
            max_tokens as int,
            overlap_tokens as int,
        ),
{
    let chunks = tokenize_with_overlap_indexed(text, max_tokens, overlap_tokens);
    let ghost spec = spec_tokenize_indexed(text@, max_tokens as int, overlap_tokens as int);
    let mut out: Vec<String> = Vec::new();
    let mut k: usize = 0;
    while k < chunks.len()
        invariant
            k <= chunks@.len(),
            out@.len() == k,
            chunks_view(chunks@) == spec,
            strings_view(out@) == spec.take(k as int).map_values(
                |c: (Seq<char>, int, int)| c.0,
            ),
        decreases chunks.len() - k,
    {
        let ghost before = out@;
        let s = chunks[k].0.clone();
        out.push(s);
        assert(out@ == before.push(s));
        assert(chunks_view(chunks@)[k as int] == spec[k as int]);
        assert(spec[k as int].0 == s@);
        assert forall|i: int| 0 <= i < k + 1 implies #[trigger] strings_view(out@)[i]
            == spec.take(k + 1).map_values(|c: (Seq<char>, int, int)| c.0)[i] by {
            if i < k {
                assert(out@[i] == before[i]);
                assert(strings_view(before)[i] == spec.take(k as int).map_values(
                    |c: (Seq<char>, int, int)| c.0,
                )[i]);
            }
        }
        assert(strings_view(out@) =~= spec.take(k + 1).map_values(
            |c: (Seq<char>, int, int)| c.0,
        ));
        k += 1;
    }
    assert(spec.take(k as int) =~= spec);
    out
}

/// Split text into fixed-size word chunks without overlap.
pub fn tokenize_fixed(text: &str, max_tokens: usize) -> (r: Vec<String>)
    ensures
        strings_view(r@) == spec_tokenize_fixed(text@, max_tokens as int),
{
    let v = chars_of(text);
    let rs = token_ranges(&v);
    let ghost ws = words(text@);
    assert(int_ranges(rs@).len() == rs@.len());
    if max_tokens == 0 || rs.len() == 0 {
        let mut out: Vec<String> = Vec::new();
        out.push(String::new());
        assert(strings_view(out@) =~= seq![Seq::<char>::empty()]);
        return out;
    }
    let n = rs.len();
    proof {
        reveal_strlit(" ");
    }
    let ghost target = blocks_from(n as int, max_tokens as int, 0).map_values(
        |w: (int, int)| window_text(ws, w),
    );
    let mut out: Vec<String> = Vec::new();
    let mut start: usize = 0;
    while start < n
        invariant
            0 <= start <= n == rs@.len(),
            n == ws.len(),
            ws == words(v@),
            v@ == text@,
            int_ranges(rs@) == word_ranges(v@),
            ranges_within(rs@, v@.len() as int),
            1 <= max_tokens,
            " "@ == seq![' '],
            target == blocks_from(n as int, max_tokens as int, 0).map_values(
                |w: (int, int)| window_text(ws, w),
            ),
            strings_view(out@) + blocks_from(
                n as int,
                max_tokens as int,
                start as int,
            ).map_values(|w: (int, int)| window_text(ws, w)) == target,
        decreases n - start,
    {
        let end = if max_tokens < n - start { start + max_tokens } else { n };
        let t = join_ranges(&v, &rs, start, end, " ");
        proof {
            lemma_pieces_are_words(v@, rs@, start as int, end as int);
        }
        let ghost before = out@;
        out.push(t);
        proof {
            let f = |w: (int, int)| window_text(ws, w);
            let here = blocks_from(n as int, max_tokens as int, start as int);
            let there = blocks_from(n as int, max_tokens as int, end as int);
            assert(here == seq![(start as int, end as int)] + there);
            assert(here.map_values(f) =~= seq![f((start as int, end as int))] + there.map_values(f));
            assert(strings_view(out@) =~= strings_view(before).push(
                f((start as int, end as int)),
            ));
        }
        start = end;
    }
    proof {
        let f = |w: (int, int)| window_text(ws, w);
        assert(blocks_from(n as int, max_tokens as int, start as int).map_values(f) =~= seq![]);
        assert(strings_view(out@) =~= target);
    }
    out
}

/// Character ranges that `split_long_word_ranges` cuts a word of `n` characters into.
pub open spec fn long_word_split(n: int, max_chars: int) -> Seq<(int, int)> {
    if max_chars == 0 || n <= max_chars {
        seq![(0, n)]
    } else {
        chunk_ranges(0, n, max_chars)
    }
}

/// Split a single word into byte-range pieces of at most `max_chars`
/// characters each, split at UTF-8 char boundaries (never mid-character).
/// Returns the whole word as one range if it's already within the limit.
pub fn split_long_word_ranges(word: &str, max_chars: usize) -> (r: Vec<core::ops::Range<usize>>)
    ensures
        r@.len() == long_word_split(word@.len() as int, max_chars as int).len(),
        forall|k: int|
            0 <= k < r@.len() ==> (#[trigger] r@[k]).start == byte_offset(
                word@,
                long_word_split(word@.len() as int, max_chars as int)[k].0,
            ) && r@[k].end == byte_offset(
                word@,
                long_word_split(word@.len() as int, max_chars as int)[k].1,
            ),
{
    let v = chars_of(word);
    let n = v.len();
    let total = word.as_bytes().len();
    let offs = byte_offsets(&v, total);
    assert(v@.take(n as int) =~= v@);
    if max_chars == 0 || n <= max_chars {
        let mut out: Vec<core::ops::Range<usize>> = Vec::new();
        out.push(0..offs[n]);
        assert(v@.take(0) =~= seq![]);
        return out;
    }
    proof {
        lemma_chunk_ranges_within(0, n as int, max_chars as int);
    }
    let ghost target = chunk_ranges(0, n as int, max_chars as int);
    let mut out: Vec<core::ops::Range<usize>> = Vec::new();
    let mut i: usize = 0;
    while i < n
        invariant
            i <= n == v@.len(),
            1 <= max_chars,
            offs@.len() == n + 1,
            forall|j: int| 0 <= j <= n ==> #[trigger] offs@[j] == byte_offset(v@, j),
            v@ == word@,
            target == chunk_ranges(0, n as int, max_chars as int),
            out@.len() + chunk_ranges(i as int, n as int, max_chars as int).len() == target.len(),
            forall|k: int|
                0 <= k < chunk_ranges(i as int, n as int, max_chars as int).len() ==> #[trigger] chunk_ranges(
                    i as int,
                    n as int,
                    max_chars as int,
                )[k] == target[out@.len() + k],
            forall|k: int|
                0 <= k < out@.len() ==> (#[trigger] out@[k]).start == byte_offset(
                    word@,
                    target[k].0,
                ) && out@[k].end == byte_offset(word@, target[k].1),
        decreases n - i,
    {
        let end_idx = if max_chars < n - i { i + max_chars } else { n };
        let ghost here = chunk_ranges(i as int, n as int, max_chars as int);
        let ghost rest = chunk_ranges(end_idx as int, n as int, max_chars as int);
        assert(here == seq![(i as int, end_idx as int)] + rest);
        assert(here[0] == target[out@.len() as int]);
        let ghost old_len = out@.len();
        out.push(offs[i]..offs[end_idx]);
        assert forall|k: int| 0 <= k < rest.len() implies #[trigger] rest[k] == target[out@.len() + k] by {
            assert(here[k + 1] == rest[k]);
            assert(here[k + 1] == target[old_len + (k + 1)]);
        }
        i = end_idx;
    }
    out
}

// ---------------------------------------------------------------------------
// Laws
// ---------------------------------------------------------------------------

proof fn lemma_windows_without_overlap(n: int, max: int, start: int)
    requires
        max >= 1,
        start >= 0,
    ensures
        windows_from(n, max, 0, start) == blocks_from(n, max, start),
    decreases n - start,
{
    if start < n {
        let end = if start + max < n { start + max } else { n };
        lemma_windows_without_overlap(n, max, end);
    }
}

/// Fixed-size chunking is overlapping chunking with no overlap.
pub proof fn law_fixed_is_zero_overlap(text: Seq<char>, max: int)
    requires
        max >= 0,
    ensures
        spec_tokenize_fixed(text, max) == spec_tokenize_with_overlap(text, max, 0),
{
    let ws = words(text);
    if max > 0 && ws.len() > 0 {
        lemma_windows_without_overlap(ws.len() as int, max, 0);
        let idx = spec_tokenize_indexed(text, max, 0);
        assert(clamp_overlap(max, 0) == 0);
        assert(spec_tokenize_fixed(text, max) =~= spec_tokenize_with_overlap(text, max, 0));
    } else {
        assert(spec_tokenize_fixed(text, max) =~= spec_tokenize_with_overlap(text, max, 0));
    }
}

proof fn lemma_windows_shape(n: int, max: int, ov: int, start: int)
    requires
        0 <= ov < max,
        0 <= start < n,
    ensures
        ({
            let w = windows_from(n, max, ov, start);
            &&& w.len() >= 1
            &&& w[0].0 == start
            &&& w[w.len() - 1].1 == n
            &&& forall|k: int|
                0 <= k < w.len() ==> (#[trigger] w[k]).0 < w[k].1 && w[k].1 - w[k].0 <= max
            &&& forall|k: int|
                0 <= k < w.len() - 1 ==> (#[trigger] w[k]).0 < w[k + 1].0 <= w[k].1 && w[k].1
                    < w[k + 1].1
        }),
    decreases n - start,
{
    let end = if start + max < n { start + max } else { n };
    let advance = if end >= n { n } else { end - ov };
    let next = if advance <= start { end } else { advance };
    let w = windows_from(n, max, ov, start);
    if next < n {
        lemma_windows_shape(n, max, ov, next);
        let rest = windows_from(n, max, ov, next);
        assert(w == seq![(start, end)] + rest);
        assert forall|k: int| 0 <= k < w.len() implies (#[trigger] w[k]).0 < w[k].1 && w[k].1
            - w[k].0 <= max by {
            if k > 0 {
                assert(w[k] == rest[k - 1]);
            }
        }
        assert forall|k: int| 0 <= k < w.len() - 1 implies (#[trigger] w[k]).0 < w[k + 1].0
            <= w[k].1 && w[k].1 < w[k + 1].1 by {
            if k > 0 {
                assert(w[k] == rest[k - 1]);
                assert(w[k + 1] == rest[k]);
            } else {
                assert(w[1] == rest[0]);
                let nend = if next + max < n { next + max } else { n };
                assert(rest[0] == (next, nend));
            }
        }
    } else {
        assert(windows_from(n, max, ov, next) =~= seq![]);
        assert(w =~= seq![(start, end)]);
    }
}

/// Overlapping chunking covers every word: the first chunk starts at word 0, the last ends
/// at the last word, every chunk holds between 1 and `max` words, and each chunk starts
/// after the previous one starts and no later than it ends (no word is skipped).
pub proof fn law_windows_cover_all_words(text: Seq<char>, max: int, overlap: int)
    requires
        max >= 1,
        overlap >= 0,
        words(text).len() > 0,
    ensures
        ({
            let c = spec_tokenize_indexed(text, max, overlap);
            let n = words(text).len() as int;
            &&& c.len() >= 1
            &&& c[0].1 == 0
            &&& c[c.len() - 1].2 == n
            &&& forall|k: int| 0 <= k < c.len() ==> (#[trigger] c[k]).1 < c[k].2 <= c[k].1 + max
            &&& forall|k: int|
                0 <= k < c.len() - 1 ==> (#[trigger] c[k]).1 < c[k + 1].1 <= c[k].2 && c[k].2
                    < c[k + 1].2
            &&& forall|k: int|
                0 <= k < c.len() ==> (#[trigger] c[k]).0 == join_with(
                    words(text).subrange(c[k].1, c[k].2),
                    seq![' '],
                )
        }),
{
    let n = words(text).len() as int;
    let ov = clamp_overlap(max, overlap);
    lemma_windows_shape(n, max, ov, 0);
    let w = windows_from(n, max, ov, 0);
    let c = spec_tokenize_indexed(text, max, overlap);
    assert forall|k: int| 0 <= k < c.len() - 1 implies (#[trigger] c[k]).1 < c[k + 1].1 <= c[k].2
        && c[k].2 < c[k + 1].2 by {
        assert(c[k].1 == w[k].0 && c[k].2 == w[k].1);
        assert(c[k + 1].1 == w[k + 1].0 && c[k + 1].2 == w[k + 1].1);
    }
}

} // verus!

//! Document outlines: ATX headings (`#` to `######`), their hierarchy, and the sections
//! that they open. Headings inside fenced code blocks (``` or ~~~) are not headings.
use vstd::prelude::*;

use crate::text::{
    chars_of, chars_eq, contains_chars, contains_seq, is_whitespace, is_ws, join_ranges, join_with,
    line_ranges, line_ranges_of, lines, lowercase, pieces, ranges_within, skip_end, skip_start,
    string_of_range, to_lowercase, trim, trim_by, trim_range, trim_pred, trim_str, ws_pred, lemma_trim_sub,
    lemma_line_ranges_bounds,
};
use crate::tokenize::{count_tokens, skip_ws, lemma_skip_ws, words};
use crate::error::{invalid_params, CapabilityError, INVALID_PARAMS};

verus! {

/// Represents a heading found in a markdown file
pub struct Heading {
    pub title: String,
    pub level: u8,
    pub line_number: usize,
    pub children: Vec<Heading>,
}

/// Represents a section in a markdown file (heading + content)
pub struct Section {
    pub heading: Heading,
    pub content: String,
    pub start_line: usize,
    pub end_line: usize,
}

/// Represents a heading match across multiple files
pub struct HeadingMatch {
    pub heading: Heading,
    pub file_path: String,
    pub file_name: String,
}

// ---------------------------------------------------------------------------
// One heading line
// ---------------------------------------------------------------------------

/// First index at or after `i` whose character is not `'#'`, else `s.len()`.
pub open spec fn hash_end(s: Seq<char>, i: int) -> int
    decreases s.len() - i,
{
    if 0 <= i < s.len() && s[i] == '#' {
        hash_end(s, i + 1)
    } else {
        i
    }
}

/// First index at or after `i` whose character is `'}'`, else `s.len()`.
pub open spec fn close_brace(s: Seq<char>, i: int) -> int
    decreases s.len() - i,
{
    if 0 <= i < s.len() && s[i] != '}' {
        close_brace(s, i + 1)
    } else {
        i
    }
}

/// Every character of `s` from `i` on is whitespace.
pub open spec fn ws_from(s: Seq<char>, i: int) -> bool {
    forall|k: int| i <= k < s.len() ==> is_ws(#[trigger] s[k])
}

/// `s[t..]` is what may follow a heading's title: whitespace, optionally around an Obsidian
/// heading id `{#...}`.
pub open spec fn id_suffix_from(s: Seq<char>, t: int) -> bool {
    ||| ws_from(s, t)
    ||| {
        let a = skip_ws(s, t);
        let c = close_brace(s, a + 2);
        &&& a + 1 < s.len()
        &&& s[a] == '{'
        &&& s[a + 1] == '#'
        &&& c < s.len()
        &&& ws_from(s, c + 1)
    }
}

/// The shortest title end: the first `k` at or after `t` (and at most `s.len()`) from which
/// only a heading-id suffix follows.
pub open spec fn title_end(s: Seq<char>, t: int) -> int
    decreases s.len() - t,
{
    if t >= s.len() {
        s.len() as int
    } else if id_suffix_from(s, t) {
        t
    } else {
        title_end(s, t + 1)
    }
}

/// The `(title, level)` of a heading line, as the pattern
/// `^(#{1,6})\s+(.+?)(?:\s*\{#[^}]*\})?\s*$` captures it, the title then trimmed.
pub open spec fn heading_of_line(line: Seq<char>) -> Option<(Seq<char>, int)> {
    let h = hash_end(line, 0);
    let w = skip_ws(line, h);
    if h < 1 || h > 6 || w == h {
        None
    } else if w < line.len() {
        Some((trim(line.subrange(w, title_end(line, w + 1))), h))
    } else if w - h >= 2 {
        Some((trim(line.subrange(w - 1, w)), h))
    } else {
        None
    }
}

proof fn lemma_hash_end(s: Seq<char>, i: int)
    requires
        0 <= i <= s.len(),
    ensures
        i <= hash_end(s, i) <= s.len(),
        forall|k: int| i <= k < hash_end(s, i) ==> s[k] == '#',
        hash_end(s, i) < s.len() ==> s[hash_end(s, i)] != '#',
    decreases s.len() - i,
{
    if i < s.len() && s[i] == '#' {
        lemma_hash_end(s, i + 1);
    }
}

proof fn lemma_close_brace(s: Seq<char>, i: int)
    requires
        0 <= i <= s.len(),
    ensures
        i <= close_brace(s, i) <= s.len(),
        close_brace(s, i) < s.len() ==> s[close_brace(s, i)] == '}',
    decreases s.len() - i,
{
    if i < s.len() && s[i] != '}' {
        lemma_close_brace(s, i + 1);
    }
}

proof fn lemma_title_end(s: Seq<char>, t: int)
    requires
        0 <= t <= s.len(),
    ensures
        t <= title_end(s, t) <= s.len(),
    decreases s.len() - t,
{
    if t < s.len() && !id_suffix_from(s, t) {
        lemma_title_end(s, t + 1);
    }
}

fn ws_from_exec(v: &Vec<char>, t: usize) -> (r: bool)
    requires
        t <= v.len(),
    ensures
        r == ws_from(v@, t as int),
{
    let mut k = t;
    while k < v.len()
        invariant
            t <= k <= v.len(),
            forall|j: int| t <= j < k ==> is_ws(#[trigger] v@[j]),
        decreases v.len() - k,
    {
        if !is_whitespace(v[k]) {
            return false;
        }
        k += 1;
    }
    true
}

fn skip_ws_exec(v: &Vec<char>, i: usize) -> (r: usize)
    requires
        i <= v.len(),
    ensures
        r == skip_ws(v@, i as int),
        i <= r <= v.len(),
{
    let mut j = i;
    while j < v.len() && is_whitespace(v[j])
        invariant
            i <= j <= v.len(),
            skip_ws(v@, i as int) == skip_ws(v@, j as int),
        decreases v.len() - j,
    {
        j += 1;
    }
    j
}

fn id_suffix_exec(v: &Vec<char>, t: usize) -> (r: bool)
    requires
        t <= v.len(),
    ensures
        r == id_suffix_from(v@, t as int),
{
    if ws_from_exec(v, t) {
        return true;
    }
    let a = skip_ws_exec(v, t);
    if a >= v.len() || a + 1 >= v.len() || v[a] != '{' || v[a + 1] != '#' {
        return false;
    }
    let mut c = a + 2;
    while c < v.len() && v[c] != '}'
        invariant
            a + 2 <= c <= v.len(),
            close_brace(v@, a + 2) == close_brace(v@, c as int),
        decreases v.len() - c,
    {
        c += 1;
    }
    if c >= v.len() {
        return false;
    }
    ws_from_exec(v, c + 1)
}

/// Parses one line as a heading: its trimmed title and its level.
pub fn parse_heading_line(line: &Vec<char>) -> (r: Option<(String, u8)>)
    ensures
        match heading_of_line(line@) {
            Some((t, l)) => r is Some && r.unwrap().0@ == t && r.unwrap().1 == l,
            None => r is None,
        },
{
    let mut h: usize = 0;
    while h < line.len() && line[h] == '#'
        invariant
            h <= line.len(),
            hash_end(line@, 0) == hash_end(line@, h as int),
        decreases line.len() - h,
    {
        h += 1;
    }
    let w = skip_ws_exec(line, h);
    if h < 1 || h > 6 || w == h {
        return None;
    }
    let (lo, hi) = if w < line.len() {
        let mut t = w + 1;
        while t < line.len() && !id_suffix_exec(line, t)
            invariant
                w + 1 <= t <= line.len(),
                title_end(line@, w + 1) == title_end(line@, t as int),
            decreases line.len() - t,
        {
            t += 1;
        }
        (w, t)
    } else if w - h >= 2 {
        (w - 1, w)
    } else {
        return None;
    };
    let (a, b) = trim_range(line, lo, hi, None);
    proof {
        lemma_trim_sub(line@, lo as int, hi as int, ws_pred());
    }
    let title = string_of_range(line, a, b);
    Some((title, h as u8))
}

// ---------------------------------------------------------------------------
// All headings of a document
// ---------------------------------------------------------------------------

/// The fence that a trimmed line opens or closes: 1 for three backticks, 2 for three
/// tildes, 0 when the line is no fence.
pub open spec fn fence_of(t: Seq<char>) -> int {
    if t.len() >= 3 && t[0] == '`' && t[1] == '`' && t[2] == '`' {
        1
    } else if t.len() >= 3 && t[0] == '~' && t[1] == '~' && t[2] == '~' {
        2
    } else {
        0
    }
}

/// The code-block state after a fence line `f` (0: outside a block, else the fence that
/// opened it): a fence opens a block, and closes one that the same kind of fence opened.
pub open spec fn fence_step(st: int, f: int) -> int {
    if st == 0 {
        f
    } else if f == st {
        0
    } else {
        st
    }
}

/// `(title, level, line_number)` of the headings among `ls[i..]`, in code-block state `st`;
/// line numbers count from 1.
pub open spec fn heading_entries(ls: Seq<Seq<char>>, i: int, st: int) -> Seq<(Seq<char>, int, int)>
    decreases ls.len() - i,
{
    if i < 0 || i >= ls.len() {
        seq![]
    } else {
        let f = fence_of(trim(ls[i]));
        if f != 0 {
            heading_entries(ls, i + 1, fence_step(st, f))
        } else if st != 0 {
            heading_entries(ls, i + 1, st)
        } else {
            match heading_of_line(ls[i]) {
                Some((t, l)) => seq![(t, l, i + 1)] + heading_entries(ls, i + 1, st),
                None => heading_entries(ls, i + 1, st),
            }
        }
    }
}

/// The headings of a document, outside code blocks, in order.
pub open spec fn outline_entries(content: Seq<char>) -> Seq<(Seq<char>, int, int)> {
    heading_entries(lines(content), 0, 0)
}

/// `h` carries the title, level and line number of `e`.
pub open spec fn heading_is(h: Heading, e: (Seq<char>, int, int)) -> bool {
    &&& h.title@ == e.0
    &&& h.level == e.1
    &&& h.line_number == e.2
}

/// `hs` are the headings `es`, each without children.
pub open spec fn flat_headings(hs: Seq<Heading>, es: Seq<(Seq<char>, int, int)>) -> bool {
    &&& hs.len() == es.len()
    &&& forall|k: int|
        0 <= k < hs.len() ==> heading_is(#[trigger] hs[k], es[k]) && hs[k].children@.len() == 0
}

pub proof fn lemma_entries_bounds(ls: Seq<Seq<char>>, i: int, st: int)
    requires
        0 <= i,
    ensures
        forall|k: int|
            0 <= k < heading_entries(ls, i, st).len() ==> i + 1 <= (#[trigger] heading_entries(
                ls,
                i,
                st,
            )[k]).2 <= ls.len() && 1 <= heading_entries(ls, i, st)[k].1 <= 6,
    decreases ls.len() - i,
{
    if i < ls.len() {
        let f = fence_of(trim(ls[i]));
        let st2 = if f != 0 { fence_step(st, f) } else { st };
        lemma_entries_bounds(ls, i + 1, st2);
        let rest = heading_entries(ls, i + 1, st2);
        let here = heading_entries(ls, i, st);
        assert forall|k: int| 0 <= k < here.len() implies i + 1 <= (#[trigger] here[k]).2
            <= ls.len() && 1 <= here[k].1 <= 6 by {
            if f == 0 && st == 0 && heading_of_line(ls[i]) is Some {
                if k > 0 {
                    assert(here[k] == rest[k - 1]);
                }
            } else {
                assert(here == rest);
                assert(here[k] == rest[k]);
            }
        }
    }
}

/// `v[lo..hi]` as a vector.
fn sub_chars(v: &Vec<char>, lo: usize, hi: usize) -> (r: Vec<char>)
    requires
        lo <= hi <= v.len(),
    ensures
        r@ == v@.subrange(lo as int, hi as int),
{
    let mut out: Vec<char> = Vec::new();
    let mut i = lo;
    while i < hi
        invariant
            lo <= i <= hi <= v.len(),
            out@ == v@.subrange(lo as int, i as int),
        decreases hi - i,
    {
        out.push(v[i]);
        assert(v@.subrange(lo as int, i + 1) =~= v@.subrange(lo as int, i as int).push(v@[i as int]));
        i += 1;
    }
    out
}

/// The fence kind of the trimmed `v[lo..hi]`.
fn fence_at(v: &Vec<char>, lo: usize, hi: usize) -> (r: u8)
    requires
        lo <= hi <= v.len(),
    ensures
        r == fence_of(trim(v@.subrange(lo as int, hi as int))),
{
    let (a, b) = trim_range(v, lo, hi, None);
    proof {
        lemma_trim_sub(v@, lo as int, hi as int, ws_pred());
    }
    let ghost t = v@.subrange(a as int, b as int);
    if b - a >= 3 && v[a] == '`' && v[a + 1] == '`' && v[a + 2] == '`' {
        assert(t[0] == '`' && t[1] == '`' && t[2] == '`');
        1
    } else if b - a >= 3 && v[a] == '~' && v[a + 1] == '~' && v[a + 2] == '~' {
        assert(t[0] == '~' && t[1] == '~' && t[2] == '~');
        2
    } else {
        proof {
            if t.len() >= 3 {
                assert(t[0] == v@[a as int] && t[1] == v@[a + 1] && t[2] == v@[a + 2]);
            }
        }
        0
    }
}

/// The line ranges of `v`, with the facts about them that the callers use.
pub fn lines_of(v: &Vec<char>) -> (r: Vec<(usize, usize)>)
    ensures
        r@.len() == lines(v@).len(),
        forall|k: int|
            0 <= k < r@.len() ==> (#[trigger] r@[k]).0 <= r@[k].1 <= v@.len() && v@.subrange(
                r@[k].0 as int,
                r@[k].1 as int,
            ) == lines(v@)[k],
        ranges_within(r@, v@.len() as int),
        pieces(v@, r@, 0, r@.len() as int) == lines(v@),
{
    let r = line_ranges_of(v);
    proof {
        assert(lines(v@).len() == line_ranges(v@).len());
        assert forall|k: int| 0 <= k < r@.len() implies (#[trigger] r@[k]).0 <= r@[k].1 <= v@.len()
            && v@.subrange(r@[k].0 as int, r@[k].1 as int) == lines(v@)[k] by {
            assert(lines(v@)[k] == v@.subrange(line_ranges(v@)[k].0, line_ranges(v@)[k].1));
        }
        assert(pieces(v@, r@, 0, r@.len() as int) =~= lines(v@));
    }
    r
}


// ---------------------------------------------------------------------------
// Hierarchy
// ---------------------------------------------------------------------------

/// Where the subtree of `hs[lo]` ends within `[lo, hi)`, scanning from `k`: at the first
/// heading of the same or a higher level (a smaller or equal number), else at `hi`.
pub open spec fn subtree_end(hs: Seq<Heading>, lo: int, k: int, hi: int) -> int
    decreases hi - k,
{
    if k >= hi {
        hi
    } else if hs[k].level <= hs[lo].level {
        k
    } else {
        subtree_end(hs, lo, k + 1, hi)
    }
}

pub proof fn lemma_subtree_end(hs: Seq<Heading>, lo: int, k: int, hi: int)
    requires
        k <= hi,
    ensures
        k <= subtree_end(hs, lo, k, hi) <= hi,
        forall|j: int| k <= j < subtree_end(hs, lo, k, hi) ==> hs[j].level > hs[lo].level,
        subtree_end(hs, lo, k, hi) < hi ==> hs[subtree_end(hs, lo, k, hi)].level <= hs[lo].level,
    decreases hi - k,
{
    if k < hi && hs[k].level > hs[lo].level {
        lemma_subtree_end(hs, lo, k + 1, hi);
    }
}

/// Two headings with the same title, level and line number.
pub open spec fn same_heading(a: Heading, b: Heading) -> bool {
    a.title@ == b.title@ && a.level == b.level && a.line_number == b.line_number
}

/// `out` is the forest that the flat headings `hs[lo..hi]` form: each heading is a child of
/// the nearest heading before it with a smaller level.
pub open spec fn is_forest(out: Seq<Heading>, hs: Seq<Heading>, lo: int, hi: int) -> bool
    decreases hi - lo,
{
    if lo >= hi {
        out.len() == 0
    } else {
        let e = subtree_end(hs, lo, lo + 1, hi);
        proof {
            lemma_subtree_end(hs, lo, lo + 1, hi);
        }
        &&& out.len() >= 1
        &&& same_heading(out[0], hs[lo])
        &&& is_forest(out[0].children@, hs, lo + 1, e)
        &&& is_forest(out.drop_first(), hs, e, hi)
    }
}

fn build_forest(hs: &Vec<Heading>, lo: usize, hi: usize) -> (r: Vec<Heading>)
    requires
        lo <= hi <= hs.len(),
    ensures
        is_forest(r@, hs@, lo as int, hi as int),
    decreases hi - lo,
{
    if lo >= hi {
        return Vec::new();
    }
    let mut e = lo + 1;
    while e < hi && hs[e].level > hs[lo].level
        invariant
            lo + 1 <= e <= hi <= hs.len(),
            subtree_end(hs@, lo as int, lo + 1, hi as int) == subtree_end(
                hs@,
                lo as int,
                e as int,
                hi as int,
            ),
        decreases hi - e,
    {
        e += 1;
    }
    let children = build_forest(hs, lo + 1, e);
    let node = Heading {
        title: hs[lo].title.clone(),
        level: hs[lo].level,
        line_number: hs[lo].line_number,
        children,
    };
    let mut rest = build_forest(hs, e, hi);
    let ghost rest0 = rest@;
    rest.insert(0, node);
    assert(rest@.drop_first() =~= rest0);
    rest
}


// ---------------------------------------------------------------------------
// Sections
// ---------------------------------------------------------------------------

/// Index of the first entry at or after `k` whose level is at most that of entry `idx`,
/// else `es.len()`.
pub open spec fn next_at_or_above(es: Seq<(Seq<char>, int, int)>, idx: int, k: int) -> int
    decreases es.len() - k,
{
    if k >= es.len() {
        es.len() as int
    } else if es[k].1 <= es[idx].1 {
        k
    } else {
        next_at_or_above(es, idx, k + 1)
    }
}

/// The next heading of the same or a higher level, searched from `k`, is at or after `k`
/// and no further than the end.
pub proof fn lemma_next_at_or_above_bounds(es: Seq<(Seq<char>, int, int)>, idx: int, k: int)
    requires
        0 <= k <= es.len(),
    ensures
        k <= next_at_or_above(es, idx, k) <= es.len(),
    decreases es.len() - k,
{
    if k < es.len() && es[k].1 > es[idx].1 {
        lemma_next_at_or_above_bounds(es, idx, k + 1);
    }
}

/// The line (counted from 0) at which the section of entry `idx` stops: the line of the
/// next heading (with subsections: the next heading of the same or a higher level), else
/// the number of lines.
pub open spec fn section_end(es: Seq<(Seq<char>, int, int)>, idx: int, with_subs: bool, n: int) -> int {
    let j = if with_subs {
        next_at_or_above(es, idx, idx + 1)
    } else {
        idx + 1
    };
    if j < es.len() {
        es[j].2 - 1
    } else {
        n
    }
}

/// Lines `start..end` joined with newlines, or nothing when the range leaves the document.
pub open spec fn section_body(ls: Seq<Seq<char>>, start: int, end: int) -> Seq<char> {
    if start < ls.len() && end <= ls.len() {
        join_with(ls.subrange(start, end), seq!['\n'])
    } else {
        seq![]
    }
}

/// The section of entry `idx`: `(title, level, line_number, content, start_line, end_line)`,
/// its content trimmed.
pub open spec fn section_at(ls: Seq<Seq<char>>, es: Seq<(Seq<char>, int, int)>, idx: int, with_subs: bool) -> (
    Seq<char>,
    int,
    int,
    Seq<char>,
    int,
    int,
) {
    let start = es[idx].2;
    let end = section_end(es, idx, with_subs, ls.len() as int);
    (es[idx].0, es[idx].1, start, trim(section_body(ls, start, end)), start, end)
}

/// The sections, from entry `idx` on, whose title equals `target` ignoring case (both sides
/// lower-cased).
pub open spec fn matching_sections(
    ls: Seq<Seq<char>>,
    es: Seq<(Seq<char>, int, int)>,
    target: Seq<char>,
    with_subs: bool,
    idx: int,
) -> Seq<(Seq<char>, int, int, Seq<char>, int, int)>
    decreases es.len() - idx,
{
    if idx < 0 || idx >= es.len() {
        seq![]
    } else {
        let rest = matching_sections(ls, es, target, with_subs, idx + 1);
        if lowercase(es[idx].0) == lowercase(target) {
            seq![section_at(ls, es, idx, with_subs)] + rest
        } else {
            rest
        }
    }
}


/// The section of entry `idx` for chunking: up to the next heading of the same or a higher
/// level (its subsections included), content not trimmed, so that its first line is line `start_line` (counted from 0).
pub open spec fn chunk_section_at(ls: Seq<Seq<char>>, es: Seq<(Seq<char>, int, int)>, idx: int) -> (
    Seq<char>,
    int,
    int,
    Seq<char>,
    int,
    int,
) {
    let start = es[idx].2;
    let end = section_end(es, idx, true, ls.len() as int);
    (es[idx].0, es[idx].1, start, section_body(ls, start, end), start, end)
}

/// The sections of a whole document, for chunking: the text before the first heading, when
/// it holds a word, as an untitled section of level 0; then one section per heading.
pub open spec fn document_sections(content: Seq<char>) -> Seq<(Seq<char>, int, int, Seq<char>, int, int)> {
    let ls = lines(content);
    let es = outline_entries(content);
    let first = if es.len() > 0 {
        es[0].2 - 1
    } else {
        ls.len() as int
    };
    let pre = section_body(ls, 0, first);
    let lead = if words(pre).len() > 0 {
        seq![(Seq::<char>::empty(), 0int, 0int, pre, 0int, first)]
    } else {
        seq![]
    };
    lead + Seq::new(es.len(), |i: int| chunk_section_at(ls, es, i))
}

/// `s` is the section `e` (its heading without children).
pub open spec fn section_is(s: Section, e: (Seq<char>, int, int, Seq<char>, int, int)) -> bool {
    &&& s.heading.title@ == e.0
    &&& s.heading.level == e.1
    &&& s.heading.line_number == e.2
    &&& s.heading.children@.len() == 0
    &&& s.content@ == e.3
    &&& s.start_line == e.4
    &&& s.end_line == e.5
}

pub open spec fn sections_are(ss: Seq<Section>, es: Seq<(Seq<char>, int, int, Seq<char>, int, int)>) -> bool {
    &&& ss.len() == es.len()
    &&& forall|k: int| 0 <= k < ss.len() ==> section_is(#[trigger] ss[k], es[k])
}

pub proof fn lemma_entries_increasing(ls: Seq<Seq<char>>, i: int, st: int)
    requires
        0 <= i,
    ensures
        forall|a: int, b: int|
            0 <= a < b < heading_entries(ls, i, st).len() ==> (#[trigger] heading_entries(
                ls,
                i,
                st,
            )[a]).2 < (#[trigger] heading_entries(ls, i, st)[b]).2,
    decreases ls.len() - i,
{
    if i < ls.len() {
        let f = fence_of(trim(ls[i]));
        let st2 = if f != 0 { fence_step(st, f) } else { st };
        lemma_entries_increasing(ls, i + 1, st2);
        lemma_entries_bounds(ls, i + 1, st2);
        let rest = heading_entries(ls, i + 1, st2);
        let here = heading_entries(ls, i, st);
        assert forall|a: int, b: int| 0 <= a < b < here.len() implies (#[trigger] here[a]).2 < (
        #[trigger] here[b]).2 by {
            if f == 0 && st == 0 && heading_of_line(ls[i]) is Some {
                assert(here[b] == rest[b - 1]);
                if a > 0 {
                    assert(here[a] == rest[a - 1]);
                }
            } else {
                assert(here == rest);
                assert(here[a] == rest[a]);
                assert(here[b] == rest[b]);
            }
        }
    }
}

proof fn lemma_next_at_or_above(es: Seq<(Seq<char>, int, int)>, idx: int, k: int)
    requires
        0 <= k <= es.len(),
    ensures
        k <= next_at_or_above(es, idx, k) <= es.len(),
        forall|j: int| k <= j < next_at_or_above(es, idx, k) ==> es[j].1 > es[idx].1,
    decreases es.len() - k,
{
    if k < es.len() && es[k].1 > es[idx].1 {
        lemma_next_at_or_above(es, idx, k + 1);
    }
}

/// Lines `start..end` of the document joined with newlines.
fn body_of(v: &Vec<char>, rs: &Vec<(usize, usize)>, start: usize, end: usize) -> (r: String)
    requires
        start <= end,
        ranges_within(rs@, v@.len() as int),
        pieces(v@, rs@, 0, rs@.len() as int) == lines(v@),
        rs@.len() == lines(v@).len(),
    ensures
        r@ == section_body(lines(v@), start as int, end as int),
{
    if start < rs.len() && end <= rs.len() {
        let r = join_ranges(v, rs, start, end, "\n");
        proof {
            reveal_strlit("\n");
            assert("\n"@ =~= seq!['\n']);
            let whole = pieces(v@, rs@, 0, rs@.len() as int);
            assert forall|k: int| 0 <= k < end - start implies #[trigger] pieces(
                v@,
                rs@,
                start as int,
                end as int,
            )[k] == lines(v@)[start + k] by {
                assert(whole[start + k] == lines(v@)[start + k]);
            }
            assert(pieces(v@, rs@, start as int, end as int) =~= lines(v@).subrange(
                start as int,
                end as int,
            ));
        }
        r
    } else {
        String::new()
    }
}


// ---------------------------------------------------------------------------
// Heading search
// ---------------------------------------------------------------------------

/// A heading level within the optional bounds.
pub open spec fn level_ok(l: int, min_level: Option<u8>, max_level: Option<u8>) -> bool {
    &&& (match min_level {
        Some(m) => l >= m,
        None => true,
    })
    &&& (match max_level {
        Some(m) => l <= m,
        None => true,
    })
}

/// The entries of `es` from `k` on that a search for the lower-cased pattern `pat` selects,
/// each with the index `fi` of its file.
pub open spec fn hits_from(
    es: Seq<(Seq<char>, int, int)>,
    pat: Seq<char>,
    min_level: Option<u8>,
    max_level: Option<u8>,
    fi: int,
    k: int,
) -> Seq<((Seq<char>, int, int), int)>
    decreases es.len() - k,
{
    if k < 0 || k >= es.len() {
        seq![]
    } else {
        let rest = hits_from(es, pat, min_level, max_level, fi, k + 1);
        if level_ok(es[k].1, min_level, max_level) && contains_seq(lowercase(es[k].0), pat) {
            seq![(es[k], fi)] + rest
        } else {
            rest
        }
    }
}

/// The hits of the files `files[i..]`, given as `(path, name, content)`, in file order.
pub open spec fn files_hits(
    files: Seq<(String, String, String)>,
    pat: Seq<char>,
    min_level: Option<u8>,
    max_level: Option<u8>,
    i: int,
) -> Seq<((Seq<char>, int, int), int)>
    decreases files.len() - i,
{
    if i < 0 || i >= files.len() {
        seq![]
    } else {
        hits_from(outline_entries(files[i].2@), pat, min_level, max_level, i, 0) + files_hits(
            files,
            pat,
            min_level,
            max_level,
            i + 1,
        )
    }
}

/// How many hits a search returns: all of them, or at most `limit`.
pub open spec fn hit_count(total: int, limit: Option<usize>) -> int {
    match limit {
        Some(l) => if total < l { total } else { l as int },
        None => total,
    }
}

/// `m` reports the hit `h` of the files `files`.
pub open spec fn match_is(m: HeadingMatch, h: ((Seq<char>, int, int), int), files: Seq<(String, String, String)>) -> bool {
    &&& heading_is(m.heading, h.0)
    &&& m.heading.children@.len() == 0
    &&& m.file_path@ == files[h.1].0@
    &&& m.file_name@ == files[h.1].1@
}

// ---------------------------------------------------------------------------
// The extractor
// ---------------------------------------------------------------------------

/// Extracts outline structure from markdown content
/// The index of the first heading after `idx` of the same or a higher level (smaller
/// number), or the number of headings.
fn next_same_or_higher(headings: &Vec<Heading>, idx: usize, Ghost(es): Ghost<Seq<(Seq<char>, int, int)>>) -> (k:
    usize)
    requires
        idx < headings.len(),
        flat_headings(headings@, es),
    ensures
        k == next_at_or_above(es, idx as int, idx + 1),
        idx < k <= headings@.len(),
{
    assert(heading_is(headings@[idx as int], es[idx as int]));
    let mut k = idx + 1;
    while k < headings.len() && headings[k].level > headings[idx].level
        invariant
            idx < headings@.len() == es.len(),
            idx + 1 <= k <= headings@.len(),
            flat_headings(headings@, es),
            next_at_or_above(es, idx as int, idx + 1) == next_at_or_above(es, idx as int, k as int),
        decreases headings@.len() - k,
    {
        assert(heading_is(headings@[k as int], es[k as int]));
        k += 1;
    }
    proof {
        if k < headings.len() {
            assert(heading_is(headings@[k as int], es[k as int]));
            assert(heading_is(headings@[idx as int], es[idx as int]));
        }
    }
    k
}

pub struct OutlineExtractor {}

impl OutlineExtractor {
    pub fn new() -> (r: OutlineExtractor) {
        OutlineExtractor {}
    }

    /// Parse a single heading from a line
    pub fn parse_heading(&self, line: &str, line_number: usize) -> (r: Option<Heading>)
        ensures
            match heading_of_line(line@) {
                Some((t, l)) => r is Some && heading_is(r.unwrap(), (t, l, line_number as int))
                    && r.unwrap().children@.len() == 0,
                None => r is None,
            },
    {
        let v = chars_of(line);
        match parse_heading_line(&v) {
            Some((title, level)) => Some(Heading { title, level, line_number, children: Vec::new() }),
            None => None,
        }
    }

    /// Extract all headings from file content, filtering out headings in code blocks
    pub fn extract_headings(&self, content: &str) -> (r: Vec<Heading>)
        ensures
            flat_headings(r@, outline_entries(content@)),
    {
        let v = chars_of(content);
        let rs = lines_of(&v);
        let ghost ls = lines(v@);
        let ghost all = heading_entries(ls, 0, 0);
        let mut out: Vec<Heading> = Vec::new();
        let ghost mut done: Seq<(Seq<char>, int, int)> = seq![];
        let mut st: u8 = 0;
        let mut i: usize = 0;
        while i < rs.len()
            invariant
                i <= rs.len() == ls.len(),
                ls == lines(v@),
                v@ == content@,
                all == heading_entries(ls, 0, 0),
                forall|k: int|
                    0 <= k < rs@.len() ==> (#[trigger] rs@[k]).0 <= rs@[k].1 <= v@.len()
                        && v@.subrange(rs@[k].0 as int, rs@[k].1 as int) == ls[k],
                st == 0 || st == 1 || st == 2,
                done + heading_entries(ls, i as int, st as int) == all,
                flat_headings(out@, done),
                forall|k: int| 0 <= k < done.len() ==> (#[trigger] done[k]).2 <= i,
            decreases rs.len() - i,
        {
            let (lo, hi) = rs[i];
            let ghost line = ls[i as int];
            let f = fence_at(&v, lo, hi);
            if f != 0 {
                st = if st == 0 {
                    f
                } else if f == st {
                    0
                } else {
                    st
                };
            } else if st == 0 {
                let lv = sub_chars(&v, lo, hi);
                match parse_heading_line(&lv) {
                    Some((title, level)) => {
                        let ghost e = (title@, level as int, i + 1);
                        let ghost before = out@;
                        out.push(Heading { title, level, line_number: i + 1, children: Vec::new() });
                        proof {
                            assert(heading_entries(ls, i as int, 0) == seq![e] + heading_entries(
                                ls,
                                i + 1,
                                0,
                            ));
                            assert(done.push(e) + heading_entries(ls, i + 1, 0) =~= done
                                + heading_entries(ls, i as int, 0));
                            assert forall|k: int| 0 <= k < out@.len() implies heading_is(
                                #[trigger] out@[k],
                                done.push(e)[k],
                            ) && out@[k].children@.len() == 0 by {
                                if k < before.len() {
                                    assert(out@[k] == before[k]);
                                }
                            }
                            done = done.push(e);
                        }
                    },
                    None => {},
                }
            }
            i += 1;
        }
        out
    }

    /// Build hierarchical tree from flat list of headings
    pub fn build_hierarchy(&self, headings: &Vec<Heading>) -> (r: Vec<Heading>)
        ensures
            is_forest(r@, headings@, 0, headings@.len() as int),
    {
        build_forest(headings, 0, headings.len())
    }

    /// Extract section content under a specific heading
    pub fn get_section(&self, content: &str, target_heading: &str, with_subsections: bool) -> (r: Vec<
        Section,
    >)
        ensures
            sections_are(
                r@,
                matching_sections(
                    lines(content@),
                    outline_entries(content@),
                    target_heading@,
                    with_subsections,
                    0,
                ),
            ),
    {
        let v = chars_of(content);
        let rs = lines_of(&v);
        let headings = self.extract_headings(content);
        let ghost ls = lines(v@);
        let ghost es = outline_entries(content@);
        proof {
            lemma_entries_bounds(ls, 0, 0);
            lemma_entries_increasing(ls, 0, 0);
        }
        let target_lower = to_lowercase(target_heading);
        let tl = chars_of(target_lower.as_str());
        let ghost all = matching_sections(ls, es, target_heading@, with_subsections, 0);
        let ghost mut done: Seq<(Seq<char>, int, int, Seq<char>, int, int)> = seq![];
        let mut out: Vec<Section> = Vec::new();
        let mut idx: usize = 0;
        while idx < headings.len()
            invariant
                idx <= headings@.len() == es.len(),
                v@ == content@,
                ls == lines(v@),
                es == heading_entries(ls, 0, 0),
                flat_headings(headings@, es),
                ranges_within(rs@, v@.len() as int),
                pieces(v@, rs@, 0, rs@.len() as int) == lines(v@),
                rs@.len() == ls.len(),
                tl@ == lowercase(target_heading@),
                all == matching_sections(ls, es, target_heading@, with_subsections, 0),
                done + matching_sections(ls, es, target_heading@, with_subsections, idx as int) == all,
                sections_are(out@, done),
                forall|k: int|
                    0 <= k < es.len() ==> 1 <= (#[trigger] es[k]).2 <= ls.len() && 1 <= es[k].1 <= 6,
                forall|a: int, b: int| 0 <= a < b < es.len() ==> (#[trigger] es[a]).2 < (#[trigger] es[b]).2,
            decreases headings@.len() - idx,
        {
            assert(heading_is(headings@[idx as int], es[idx as int]));
            let hl = to_lowercase(headings[idx].title.as_str());
            let hv = chars_of(hl.as_str());
            if chars_eq(&hv, &tl) {
                let start = headings[idx].line_number;
                let j = if with_subsections {
                    next_same_or_higher(&headings, idx, Ghost(es))
                } else {
                    idx + 1
                };
                let end = if j < headings.len() {
                    assert(heading_is(headings@[j as int], es[j as int]));
                    headings[j].line_number - 1
                } else {
                    rs.len()
                };
                let body = body_of(&v, &rs, start, end);
                let trimmed = trim_str(body.as_str());
                let ghost e = section_at(ls, es, idx as int, with_subsections);
                let ghost before = out@;
                out.push(
                    Section {
                        heading: Heading {
                            title: headings[idx].title.clone(),
                            level: headings[idx].level,
                            line_number: start,
                            children: Vec::new(),
                        },
                        content: trimmed,
                        start_line: start,
                        end_line: end,
                    },
                );
                proof {
                    assert(matching_sections(ls, es, target_heading@, with_subsections, idx as int)
                        == seq![e] + matching_sections(
                        ls,
                        es,
                        target_heading@,
                        with_subsections,
                        idx + 1,
                    ));
                    assert(done.push(e) + matching_sections(
                        ls,
                        es,
                        target_heading@,
                        with_subsections,
                        idx + 1,
                    ) =~= all);
                    assert forall|k: int| 0 <= k < out@.len() implies section_is(
                        #[trigger] out@[k],
                        done.push(e)[k],
                    ) by {
                        if k < before.len() {
                            assert(out@[k] == before[k]);
                        }
                    }
                    done = done.push(e);
                }
            }
            idx += 1;
        }
        out
    }

    /// The sections of a document, for chunking (see `document_sections`).
    pub fn extract_sections_from_content(&self, content: &str) -> (r: Vec<Section>)
        ensures
            sections_are(r@, document_sections(content@)),
    {
        let v = chars_of(content);
        let rs = lines_of(&v);
        let headings = self.extract_headings(content);
        let ghost ls = lines(v@);
        let ghost es = outline_entries(content@);
        proof {
            lemma_entries_bounds(ls, 0, 0);
            lemma_entries_increasing(ls, 0, 0);
        }
        let mut out: Vec<Section> = Vec::new();
        let first = if headings.len() > 0 {
            assert(heading_is(headings@[0], es[0]));
            headings[0].line_number - 1
        } else {
            rs.len()
        };
        let pre = body_of(&v, &rs, 0, first);
        let ghost lead: Seq<(Seq<char>, int, int, Seq<char>, int, int)> = seq![];
        if count_tokens(pre.as_str()) > 0 {
            out.push(
                Section {
                    heading: Heading {
                        title: String::new(),
                        level: 0,
                        line_number: 0,
                        children: Vec::new(),
                    },
                    content: pre,
                    start_line: 0,
                    end_line: first,
                },
            );
            proof {
                lead = seq![(Seq::<char>::empty(), 0int, 0int, out@[0].content@, 0int, first as int)];
            }
        }
        let ghost f = |i: int| chunk_section_at(ls, es, i);
        let mut idx: usize = 0;
        while idx < headings.len()
            invariant
                idx <= headings@.len() == es.len(),
                v@ == content@,
                ls == lines(v@),
                es == heading_entries(ls, 0, 0),
                f == (|i: int| chunk_section_at(ls, es, i)),
                flat_headings(headings@, es),
                ranges_within(rs@, v@.len() as int),
                pieces(v@, rs@, 0, rs@.len() as int) == lines(v@),
                rs@.len() == ls.len(),
                sections_are(out@, lead + Seq::new(idx as nat, f)),
                forall|k: int|
                    0 <= k < es.len() ==> 1 <= (#[trigger] es[k]).2 <= ls.len() && 1 <= es[k].1 <= 6,
                forall|a: int, b: int| 0 <= a < b < es.len() ==> (#[trigger] es[a]).2 < (#[trigger] es[b]).2,
            decreases headings@.len() - idx,
        {
            assert(heading_is(headings@[idx as int], es[idx as int]));
            let start = headings[idx].line_number;
            let j = next_same_or_higher(&headings, idx, Ghost(es));
            let end = if j < headings.len() {
                assert(heading_is(headings@[j as int], es[j as int]));
                headings[j].line_number - 1
            } else {
                rs.len()
            };
            let body = body_of(&v, &rs, start, end);
            let ghost before = out@;
            out.push(
                Section {
                    heading: Heading {
                        title: headings[idx].title.clone(),
                        level: headings[idx].level,
                        line_number: start,
                        children: Vec::new(),
                    },
                    content: body,
                    start_line: start,
                    end_line: end,
                },
            );
            proof {
                let prev = lead + Seq::new(idx as nat, f);
                let next = lead + Seq::new((idx + 1) as nat, f);
                assert(next =~= prev.push(f(idx as int)));
                assert forall|k: int| 0 <= k < out@.len() implies section_is(
                    #[trigger] out@[k],
                    next[k],
                ) by {
                    if k < before.len() {
                        assert(out@[k] == before[k]);
                    }
                }
            }
            idx += 1;
        }
        proof {
            assert(Seq::new(es.len(), f) =~= Seq::new(es.len(), |i: int| chunk_section_at(ls, es, i)));
        }
        out
    }

    /// Search for headings matching a pattern (a case-insensitive substring) across the given
    /// files, each given as `(path, name, content)`.
    pub fn search_headings(
        &self,
        files: &Vec<(String, String, String)>,
        pattern: &str,
        min_level: Option<u8>,
        max_level: Option<u8>,
        limit: Option<usize>,
    ) -> (r: Vec<HeadingMatch>)
        ensures
            ({
                let all = files_hits(files@, lowercase(pattern@), min_level, max_level, 0);
                &&& r@.len() == hit_count(all.len() as int, limit)
                &&& forall|k: int| 0 <= k < r@.len() ==> match_is(#[trigger] r@[k], all[k], files@)
            }),
    {
        if let Some(0) = limit {
            return Vec::new();
        }
        let pattern_lower = to_lowercase(pattern);
        let pv = chars_of(pattern_lower.as_str());
        let ghost pat = lowercase(pattern@);
        let ghost all = files_hits(files@, pat, min_level, max_level, 0);
        let ghost mut done: Seq<((Seq<char>, int, int), int)> = seq![];
        let mut out: Vec<HeadingMatch> = Vec::new();
        let mut i: usize = 0;
        while i < files.len()
            invariant
                i <= files@.len(),
                pv@ == pat,
                pat == lowercase(pattern@),
                all == files_hits(files@, pat, min_level, max_level, 0),
                done + files_hits(files@, pat, min_level, max_level, i as int) == all,
                out@.len() == done.len(),
                forall|k: int| 0 <= k < out@.len() ==> match_is(#[trigger] out@[k], done[k], files@),
                limit matches Some(l) ==> l > 0 && done.len() < l,
            decreases files@.len() - i,
        {
            let headings = self.extract_headings(files[i].2.as_str());
            let ghost es = outline_entries(files@[i as int].2@);
            let mut k: usize = 0;
            assert(files_hits(files@, pat, min_level, max_level, i as int) == hits_from(
                es,
                pat,
                min_level,
                max_level,
                i as int,
                0,
            ) + files_hits(files@, pat, min_level, max_level, i + 1));
            while k < headings.len()
                invariant
                    i < files@.len(),
                    k <= headings@.len() == es.len(),
                    es == outline_entries(files@[i as int].2@),
                    flat_headings(headings@, es),
                    pv@ == pat,
                    pat == lowercase(pattern@),
                    all == files_hits(files@, pat, min_level, max_level, 0),
                    done + hits_from(es, pat, min_level, max_level, i as int, k as int) + files_hits(
                        files@,
                        pat,
                        min_level,
                        max_level,
                        i + 1,
                    ) == all,
                    out@.len() == done.len(),
                    forall|j: int| 0 <= j < out@.len() ==> match_is(#[trigger] out@[j], done[j], files@),
                    limit matches Some(l) ==> l > 0 && done.len() < l,
                decreases headings@.len() - k,
            {
                assert(heading_is(headings@[k as int], es[k as int]));
                let lv = headings[k].level;
                let in_range = match min_level {
                    Some(m) => lv >= m,
                    None => true,
                } && match max_level {
                    Some(m) => lv <= m,
                    None => true,
                };
                let hit = if in_range {
                    let tl = to_lowercase(headings[k].title.as_str());
                    let tv = chars_of(tl.as_str());
                    contains_chars(&tv, &pv)
                } else {
                    false
                };
                if hit {
                    let ghost h = (es[k as int], i as int);
                    let ghost before = out@;
                    out.push(
                        HeadingMatch {
                            heading: Heading {
                                title: headings[k].title.clone(),
                                level: lv,
                                line_number: headings[k].line_number,
                                children: Vec::new(),
                            },
                            file_path: files[i].0.clone(),
                            file_name: files[i].1.clone(),
                        },
                    );
                    proof {
                        assert(hits_from(es, pat, min_level, max_level, i as int, k as int) == seq![h]
                            + hits_from(es, pat, min_level, max_level, i as int, k + 1));
                        assert(done.push(h) + hits_from(es, pat, min_level, max_level, i as int, k + 1)
                            + files_hits(files@, pat, min_level, max_level, i + 1) =~= all);
                        assert forall|j: int| 0 <= j < out@.len() implies match_is(
                            #[trigger] out@[j],
                            done.push(h)[j],
                            files@,
                        ) by {
                            if j < before.len() {
                                assert(out@[j] == before[j]);
                            }
                        }
                        done = done.push(h);
                    }
                    match limit {
                        Some(lim) => {
                            if out.len() >= lim {
                                proof {
                                    let rest = hits_from(es, pat, min_level, max_level, i as int, k + 1)
                                        + files_hits(files@, pat, min_level, max_level, i + 1);
                                    assert(done + rest == all);
                                    assert(all.len() >= done.len());
                                    assert forall|j: int| 0 <= j < out@.len() implies match_is(
                                        #[trigger] out@[j],
                                        all[j],
                                        files@,
                                    ) by {
                                        assert(all[j] == (done + rest)[j]);
                                    }
                                }
                                return out;
                            }
                        },
                        None => {},
                    }
                }
                k += 1;
            }
            proof {
                assert(hits_from(es, pat, min_level, max_level, i as int, k as int) =~= seq![]);
                assert(done + files_hits(files@, pat, min_level, max_level, i + 1) =~= all);
            }
            i += 1;
        }
        proof {
            assert(files_hits(files@, pat, min_level, max_level, i as int) =~= seq![]);
            assert(done =~= all);
        }
        out
    }

    /// The outline of a document: its headings, flat or as a tree.
    pub fn get_outline(&self, content: &str, hierarchical: bool) -> (r: Vec<Heading>)
        ensures
            hierarchical ==> exists|flat: Seq<Heading>|
                flat_headings(flat, outline_entries(content@)) && is_forest(r@, flat, 0, flat.len() as int),
            !hierarchical ==> flat_headings(r@, outline_entries(content@)),
    {
        let headings = self.extract_headings(content);
        if hierarchical {
            let tree = self.build_hierarchy(&headings);
            assert(flat_headings(headings@, outline_entries(content@)));
            tree
        } else {
            headings
        }
    }

}


// ---------------------------------------------------------------------------
// Requests and responses
// ---------------------------------------------------------------------------

/// Parameters for the get_outline operation
pub struct GetOutlineRequest {
    /// Path to vault (CLI only - not used in HTTP/MCP)
    pub vault_path: Option<String>,
    /// File path relative to vault root
    pub file_path: String,
    /// Return hierarchical structure instead of flat list
    pub hierarchical: Option<bool>,
}

/// Response from the get_outline operation
pub struct GetOutlineResponse {
    /// File path relative to vault root
    pub file_path: String,
    /// File name
    pub file_name: String,
    /// List of headings (flat or hierarchical)
    pub headings: Vec<Heading>,
    /// Total number of headings found
    pub total_count: usize,
}

/// Parameters for the get_section operation
pub struct GetSectionRequest {
    /// Path to vault (CLI only - not used in HTTP/MCP)
    pub vault_path: Option<String>,
    /// File path relative to vault root
    pub file_path: String,
    /// Heading title to find
    pub heading: String,
    /// Include subsections in the extracted content
    pub include_subsections: Option<bool>,
}

/// Response from the get_section operation
pub struct GetSectionResponse {
    /// File path relative to vault root
    pub file_path: String,
    /// File name
    pub file_name: String,
    /// Sections found (can be multiple if headings have same title)
    pub sections: Vec<Section>,
    /// Number of sections found
    pub section_count: usize,
}

/// Parameters for the search_headings operation
pub struct SearchHeadingsRequest {
    /// Path to vault (CLI only - not used in HTTP/MCP)
    pub vault_path: Option<String>,
    /// Search pattern (case-insensitive substring)
    pub pattern: String,
    /// Minimum heading level (1-6)
    pub min_level: Option<u8>,
    /// Maximum heading level (1-6)
    pub max_level: Option<u8>,
    /// Limit number of results
    pub limit: Option<usize>,
}

/// Response from the search_headings operation
pub struct SearchHeadingsResponse {
    /// Matching headings found
    pub matches: Vec<HeadingMatch>,
    /// Total number of matches
    pub total_count: usize,
}

pub open spec fn min_level_message() -> Seq<char> {
    seq![
        'm', 'i', 'n', '_', 'l', 'e', 'v', 'e', 'l', ' ', 'm', 'u', 's', 't', ' ', 'b', 'e', ' ', 'b',
        'e', 't', 'w', 'e', 'e', 'n', ' ', '1', ' ', 'a', 'n', 'd', ' ', '6',
    ]
}

pub open spec fn max_level_message() -> Seq<char> {
    seq![
        'm', 'a', 'x', '_', 'l', 'e', 'v', 'e', 'l', ' ', 'm', 'u', 's', 't', ' ', 'b', 'e', ' ', 'b',
        'e', 't', 'w', 'e', 'e', 'n', ' ', '1', ' ', 'a', 'n', 'd', ' ', '6',
    ]
}

/// Checks the level bounds of a heading search: each given bound must be 1 to 6.
pub fn validate_levels(request: &SearchHeadingsRequest) -> (r: Result<(), CapabilityError>)
    ensures
        (request.min_level matches Some(m) && !(1 <= m <= 6)) ==> (r matches Err(e) && e.code
            == INVALID_PARAMS && e.message@ == min_level_message()),
        !(request.min_level matches Some(m) && !(1 <= m <= 6)) && (request.max_level matches Some(
            m,
        ) && !(1 <= m <= 6)) ==> (r matches Err(e) && e.code == INVALID_PARAMS && e.message@
            == max_level_message()),
        !(request.min_level matches Some(m) && !(1 <= m <= 6)) && !(request.max_level matches Some(
            m,
        ) && !(1 <= m <= 6)) ==> r is Ok,
{
    proof {
        reveal_strlit("min_level must be between 1 and 6");
        reveal_strlit("max_level must be between 1 and 6");
    }
    if let Some(min) = request.min_level {
        if !(1 <= min && min <= 6) {
            let e = invalid_params("min_level must be between 1 and 6");
            assert(e.message@ =~= min_level_message());
            return Err(e);
        }
    }
    if let Some(max) = request.max_level {
        if !(1 <= max && max <= 6) {
            let e = invalid_params("max_level must be between 1 and 6");
            assert(e.message@ =~= max_level_message());
            return Err(e);
        }
    }
    Ok(())
}


/// The headings of a forest in document order: each heading, then the headings under it,
/// then the rest of the forest.
pub open spec fn preorder(f: Seq<Heading>) -> Seq<Heading>
    decreases f,
{
    if f.len() == 0 {
        seq![]
    } else {
        proof {
            assert(decreases_to!(f => f[0].children@));
            assert(decreases_to!(f => f.drop_first()));
        }
        seq![f[0]] + preorder(f[0].children@) + preorder(f.drop_first())
    }
}

/// The hierarchy loses no heading and keeps their order: read in document order, the forest
/// that `build_hierarchy` returns for `hs[lo..hi]` is those headings (title, level and line),
/// one for one.
pub proof fn law_hierarchy_keeps_document_order(out: Seq<Heading>, hs: Seq<Heading>, lo: int, hi: int)
    requires
        0 <= lo <= hi <= hs.len(),
        is_forest(out, hs, lo, hi),
    ensures
        preorder(out).len() == hi - lo,
        forall|k: int| 0 <= k < hi - lo ==> same_heading(#[trigger] preorder(out)[k], hs[lo + k]),
    decreases hi - lo,
{
    if lo < hi {
        let e = subtree_end(hs, lo, lo + 1, hi);
        lemma_subtree_end(hs, lo, lo + 1, hi);
        law_hierarchy_keeps_document_order(out[0].children@, hs, lo + 1, e);
        law_hierarchy_keeps_document_order(out.drop_first(), hs, e, hi);
        let a = preorder(out[0].children@);
        let b = preorder(out.drop_first());
        let p = preorder(out);
        assert(p == seq![out[0]] + a + b);
        assert forall|k: int| 0 <= k < hi - lo implies same_heading(#[trigger] p[k], hs[lo + k]) by {
            if k == 0 {
            } else if k < e - lo {
                assert(p[k] == a[k - 1]);
            } else {
                assert(p[k] == b[k - (e - lo)]);
            }
        }
    }
}


/// The heading that `next_at_or_above` stops at is of the same or a higher level.
proof fn lemma_next_at_or_above_stops(es: Seq<(Seq<char>, int, int)>, idx: int, k: int)
    requires
        0 <= k <= es.len(),
    ensures
        next_at_or_above(es, idx, k) < es.len() ==> es[next_at_or_above(es, idx, k)].1 <= es[idx].1,
    decreases es.len() - k,
{
    if k < es.len() && es[k].1 > es[idx].1 {
        lemma_next_at_or_above_stops(es, idx, k + 1);
    }
}

/// With its subsections, the section under a heading runs exactly up to the first later
/// heading of the same or a higher level (a level number at most its own), stopping on the
/// line before it; when no such heading follows, it runs to the end of the document. Every
/// heading in between is deeper than the section's own.
pub proof fn law_section_with_subsections_end(content: Seq<char>, idx: int)
    requires
        0 <= idx < outline_entries(content).len(),
    ensures
        ({
            let ls = lines(content);
            let es = outline_entries(content);
            let end = section_at(ls, es, idx, true).5;
            ||| (forall|i: int| idx < i < es.len() ==> (#[trigger] es[i]).1 > es[idx].1) && end
                == ls.len()
            ||| exists|j: int|
                idx < j < es.len() && (#[trigger] es[j]).1 <= es[idx].1 && (forall|i: int|
                    idx < i < j ==> (#[trigger] es[i]).1 > es[idx].1) && end == es[j].2 - 1
        }),
{
    let ls = lines(content);
    let es = outline_entries(content);
    lemma_next_at_or_above(es, idx, idx + 1);
    lemma_next_at_or_above_stops(es, idx, idx + 1);
    let j = next_at_or_above(es, idx, idx + 1);
    if j < es.len() {
        assert(idx < j && es[j].1 <= es[idx].1 && (forall|i: int| idx < i < j ==> (#[trigger] es[i]).1 > es[idx].1));
    }
}

} // verus!

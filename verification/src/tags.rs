//! Tags from YAML frontmatter: reading them, listing the vault's tags with the number of
//! documents that carry each, and finding the files that carry some or all of a set of tags.
use vstd::prelude::*;

use crate::config::Config;
use crate::outline::lines_of;
use crate::daily_notes::{file_name, file_name_in};
use crate::storage::{lemma_sm_insert_ordered, sm_insert, sm_insert_exec, sm_ordered, sm_view};
use crate::text::{
    chars_eq, chars_of, join_ranges, join_with, lemma_trim_sub, lex_lt, lines, lowercase, pieces,
    ranges_within, string_of_range, strings_view, to_lowercase, trim, trim_range, ws_pred,
};

verus! {

// ---------------------------------------------------------------------------
// The tags field of a frontmatter
// ---------------------------------------------------------------------------

/// The `tags` field of a YAML document, as far as tag extraction reads it.
pub enum TagsField {
    /// The document has no `tags` key (or is not a mapping).
    Missing,
    /// A sequence: for each item, its text when it is a string.
    List(Vec<Option<String>>),
    /// A single string.
    Single(String),
    /// Any other kind of value.
    Other,
}

/// A `tags` field as plain values.
pub enum TagsFieldV {
    Missing,
    List(Seq<Option<Seq<char>>>),
    Single(Seq<char>),
    Other,
}

pub open spec fn opt_view(o: Option<String>) -> Option<Seq<char>> {
    match o {
        Some(s) => Some(s@),
        None => None,
    }
}

impl TagsField {
    pub open spec fn view(&self) -> TagsFieldV {
        match self {
            TagsField::Missing => TagsFieldV::Missing,
            TagsField::List(items) => TagsFieldV::List(items@.map_values(|o: Option<String>| opt_view(o))),
            TagsField::Single(s) => TagsFieldV::Single(s@),
            TagsField::Other => TagsFieldV::Other,
        }
    }
}

/// What `serde_yaml` reads from a frontmatter text: its field `key`, or the parse error's
/// message.
pub uninterp spec fn yaml_field(frontmatter: Seq<char>, key: Seq<char>) -> Result<TagsFieldV, Seq<char>>;

/// Parses `frontmatter` with `serde_yaml::from_str` into a `serde_yaml::Value` and reads its
/// `key` entry (`Value::get`): a sequence (each item through `Value::as_str`), a string,
/// another value, or none; a parse error is returned as its message. The contract names
/// the outcome (`yaml_field`) and states nothing of its value.
#[verifier::external_body]
fn read_yaml_field(frontmatter: &str, key: &str) -> (r: Result<TagsField, String>)
    ensures
        match r {
            Ok(f) => yaml_field(frontmatter@, key@) == Ok::<TagsFieldV, Seq<char>>(f.view()),
            Err(e) => yaml_field(frontmatter@, key@) == Err::<TagsFieldV, Seq<char>>(e@),
        },
{
    match serde_yaml::from_str::<serde_yaml::Value>(frontmatter) {
        Err(e) => Err(e.to_string()),
        Ok(yaml) => Ok(match yaml.get(key) {
            None => TagsField::Missing,
            Some(serde_yaml::Value::Sequence(seq)) => TagsField::List(
                seq.iter().map(|v| v.as_str().map(|s| s.to_string())).collect(),
            ),
            Some(serde_yaml::Value::String(s)) => TagsField::Single(s.clone()),
            Some(_) => TagsField::Other,
        }),
    }
}

/// The frontmatter field that holds a note's tags.
pub open spec fn tags_key() -> Seq<char> {
    seq!['t', 'a', 'g', 's']
}

/// The items of a tags list from `k` on that are strings with more than whitespace.
pub open spec fn listed_tags(items: Seq<Option<Seq<char>>>, k: int) -> Seq<Seq<char>>
    decreases items.len() - k,
{
    if k < 0 || k >= items.len() {
        seq![]
    } else {
        let rest = listed_tags(items, k + 1);
        match items[k] {
            Some(t) => if trim(t).len() > 0 {
                seq![t] + rest
            } else {
                rest
            },
            None => rest,
        }
    }
}

/// The tags that a `tags` field gives: the non-blank strings of a list, a non-blank single
/// string, else none.
pub open spec fn tags_of_field(f: TagsFieldV) -> Seq<Seq<char>> {
    match f {
        TagsFieldV::List(items) => listed_tags(items, 0),
        TagsFieldV::Single(s) => if trim(s).len() > 0 {
            seq![s]
        } else {
            seq![]
        },
        _ => seq![],
    }
}

/// The tags of a frontmatter text, or the YAML error.
pub open spec fn frontmatter_tags(frontmatter: Seq<char>) -> Result<Seq<Seq<char>>, Seq<char>> {
    match yaml_field(frontmatter, tags_key()) {
        Ok(f) => Ok(tags_of_field(f)),
        Err(e) => Err(e),
    }
}

fn is_blank(s: &str) -> (r: bool)
    ensures
        r == (trim(s@).len() == 0),
{
    let v = chars_of(s);
    let (a, b) = trim_range(&v, 0, v.len(), None);
    proof {
        lemma_trim_sub(v@, 0, v@.len() as int, ws_pred());
        assert(v@.subrange(0, v@.len() as int) =~= v@);
    }
    a == b
}

// ---------------------------------------------------------------------------
// Frontmatter
// ---------------------------------------------------------------------------

/// `---`.
pub open spec fn fence_line() -> Seq<char> {
    seq!['-', '-', '-']
}

/// Index of the first line at or after `i` that is `---` once trimmed, else `ls.len()`.
pub open spec fn closing_fence(ls: Seq<Seq<char>>, i: int) -> int
    decreases ls.len() - i,
{
    if i < 0 || i >= ls.len() {
        ls.len() as int
    } else if trim(ls[i]) == fence_line() {
        i
    } else {
        closing_fence(ls, i + 1)
    }
}

/// The frontmatter of a document: the lines between a first line `---` and the next line
/// `---` (each compared trimmed), joined with newlines.
pub open spec fn frontmatter_of(content: Seq<char>) -> Option<Seq<char>> {
    let ls = lines(content);
    if ls.len() == 0 || trim(ls[0]) != fence_line() {
        None
    } else {
        let end = closing_fence(ls, 1);
        if end < ls.len() {
            Some(join_with(ls.subrange(1, end), seq!['\n']))
        } else {
            None
        }
    }
}

/// Whether the trimmed `v[lo..hi]` is `---`.
fn is_fence(v: &Vec<char>, lo: usize, hi: usize) -> (r: bool)
    requires
        lo <= hi <= v.len(),
    ensures
        r == (trim(v@.subrange(lo as int, hi as int)) == fence_line()),
{
    let (a, b) = trim_range(v, lo, hi, None);
    proof {
        lemma_trim_sub(v@, lo as int, hi as int, ws_pred());
    }
    let ghost t = v@.subrange(a as int, b as int);
    if b - a == 3 && v[a] == '-' && v[a + 1] == '-' && v[a + 2] == '-' {
        assert(t =~= fence_line());
        true
    } else {
        proof {
            if t.len() == 3 {
                assert(t[0] == v@[a as int] && t[1] == v@[a + 1] && t[2] == v@[a + 2]);
            }
        }
        false
    }
}

/// Extractor for YAML frontmatter tags
pub struct TagExtractor {
    config: Config,
}

impl TagExtractor {
    /// The configuration the extractor was made with.
    pub closed spec fn configuration(&self) -> Config {
        self.config
    }

    pub fn new(config: Config) -> (r: Self)
        ensures
            r.configuration() == config,
    {
        TagExtractor { config }
    }

    /// Extract YAML frontmatter from markdown content
    /// Frontmatter is expected to be at the start of the file between --- delimiters
    pub fn extract_frontmatter(&self, content: &str) -> (r: Result<Option<String>, String>)
        ensures
            r matches Ok(fm) && opt_view(fm) == frontmatter_of(content@),
    {
        let v = chars_of(content);
        let rs = lines_of(&v);
        let ghost ls = lines(v@);
        if rs.len() == 0 || !is_fence(&v, rs[0].0, rs[0].1) {
            return Ok(None);
        }
        let mut end: usize = 1;
        while end < rs.len() && !is_fence(&v, rs[end].0, rs[end].1)
            invariant
                1 <= end <= rs@.len() == ls.len(),
                ls == lines(v@),
                forall|k: int|
                    0 <= k < rs@.len() ==> (#[trigger] rs@[k]).0 <= rs@[k].1 <= v@.len()
                        && v@.subrange(rs@[k].0 as int, rs@[k].1 as int) == ls[k],
                closing_fence(ls, 1) == closing_fence(ls, end as int),
            decreases rs@.len() - end,
        {
            end += 1;
        }
        if end >= rs.len() {
            return Ok(None);
        }
        let fm = join_ranges(&v, &rs, 1, end, "\n");
        proof {
            reveal_strlit("\n");
            assert("\n"@ =~= seq!['\n']);
            let whole = pieces(v@, rs@, 0, rs@.len() as int);
            assert forall|k: int| 0 <= k < end - 1 implies #[trigger] pieces(
                v@,
                rs@,
                1,
                end as int,
            )[k] == ls[1 + k] by {
                assert(whole[1 + k] == ls[1 + k]);
            }
            assert(pieces(v@, rs@, 1, end as int) =~= ls.subrange(1, end as int));
        }
        Ok(Some(fm))
    }

    /// Parse tags from YAML frontmatter
    pub fn parse_tags_from_frontmatter(&self, frontmatter: &str) -> (r: Result<Vec<String>, String>)
        ensures
            match r {
                Ok(tags) => frontmatter_tags(frontmatter@) == Ok::<Seq<Seq<char>>, Seq<char>>(
                    strings_view(tags@),
                ),
                Err(e) => frontmatter_tags(frontmatter@) == Err::<Seq<Seq<char>>, Seq<char>>(e@),
            },
    {
        proof {
            reveal_strlit("tags");
        }
        assert("tags"@ == tags_key());
        match read_yaml_field(frontmatter, "tags") {
            Err(e) => Err(e),
            Ok(TagsField::List(items)) => {
                let ghost iv = items@.map_values(|o: Option<String>| opt_view(o));
                let mut out: Vec<String> = Vec::new();
                let mut k: usize = 0;
                while k < items.len()
                    invariant
                        k <= items@.len(),
                        iv == items@.map_values(|o: Option<String>| opt_view(o)),
                        strings_view(out@) + listed_tags(iv, k as int) == listed_tags(iv, 0),
                    decreases items@.len() - k,
                {
                    let ghost before = out@;
                    assert(iv[k as int] == opt_view(items@[k as int]));
                    match &items[k] {
                        Some(t) => {
                            if !is_blank(t.as_str()) {
                                out.push(t.clone());
                                assert(strings_view(out@) =~= strings_view(before).push(t@));
                                assert(strings_view(out@) + listed_tags(iv, k + 1) =~= strings_view(
                                    before,
                                ) + listed_tags(iv, k as int));
                            }
                        },
                        None => {},
                    }
                    k += 1;
                }
                assert(strings_view(out@) =~= listed_tags(iv, 0));
                Ok(out)
            },
            Ok(TagsField::Single(s)) => {
                let mut out: Vec<String> = Vec::new();
                if !is_blank(s.as_str()) {
                    out.push(s);
                }
                proof {
                    assert(strings_view(out@) =~= tags_of_field(TagsFieldV::Single(s@)));
                }
                Ok(out)
            },
            Ok(_) => {
                let out: Vec<String> = Vec::new();
                assert(strings_view(out@) =~= seq![]);
                Ok(out)
            },
        }
    }

    /// Extract tags from markdown content by parsing YAML frontmatter
    pub fn extract_tags_from_content(&self, content: &str) -> (r: Result<Vec<String>, String>)
        ensures
            match frontmatter_of(content@) {
                Some(fm) => match r {
                    Ok(tags) => frontmatter_tags(fm) == Ok::<Seq<Seq<char>>, Seq<char>>(
                        strings_view(tags@),
                    ),
                    Err(e) => frontmatter_tags(fm) == Err::<Seq<Seq<char>>, Seq<char>>(e@),
                },
                None => r matches Ok(tags) && tags@.len() == 0,
            },
    {
        match self.extract_frontmatter(content) {
            Ok(Some(fm)) => self.parse_tags_from_frontmatter(fm.as_str()),
            _ => Ok(Vec::new()),
        }
    }
}


// ---------------------------------------------------------------------------
// Tags across files
// ---------------------------------------------------------------------------

/// The tags of the first `n` files, one file after another.
pub open spec fn flat_tags(per_file: Seq<Vec<String>>, n: int) -> Seq<Seq<char>>
    decreases n,
{
    if n <= 0 {
        seq![]
    } else {
        flat_tags(per_file, n - 1) + strings_view(per_file[n - 1]@)
    }
}

/// The keys `keys[..n]` gathered in a key-ordered set (each key with value 0). A set of
/// strings is kept as key-ordered pairs (see the `sm_*` maps of `storage`): vstd specifies
/// `BTreeSet` and `HashSet` only for element types that obey its comparison or hashing
/// model, which `String` does not.
pub open spec fn set_from(keys: Seq<Seq<char>>, n: int) -> Seq<(Seq<char>, int)>
    decreases n,
{
    if n <= 0 {
        seq![]
    } else {
        sm_insert(set_from(keys, n - 1), keys[n - 1], 0)
    }
}

pub open spec fn sm_keys(m: Seq<(Seq<char>, int)>) -> Seq<Seq<char>> {
    m.map_values(|e: (Seq<char>, int)| e.0)
}

/// The distinct tags of all files, in the order of a `BTreeSet` (ascending).
pub open spec fn unique_tags(per_file: Seq<Vec<String>>) -> Seq<Seq<char>> {
    let flat = flat_tags(per_file, per_file.len() as int);
    sm_keys(set_from(flat, flat.len() as int))
}

proof fn lemma_set_from_same(a: Seq<Seq<char>>, b: Seq<Seq<char>>, n: int)
    requires
        0 <= n <= a.len(),
        n <= b.len(),
        forall|i: int| 0 <= i < n ==> a[i] == b[i],
    ensures
        set_from(a, n) == set_from(b, n),
    decreases n,
{
    if n > 0 {
        lemma_set_from_same(a, b, n - 1);
    }
}

/// The distinct tags of the files' tag lists, ascending.
pub fn collect_unique_tags(per_file: &Vec<Vec<String>>) -> (r: Vec<String>)
    ensures
        strings_view(r@) == unique_tags(per_file@),
{
    let ghost all = flat_tags(per_file@, per_file@.len() as int);
    let mut m: Vec<(Vec<char>, usize)> = Vec::new();
    let ghost mut n: int = 0;
    let mut f: usize = 0;
    while f < per_file.len()
        invariant
            f <= per_file@.len(),
            n == flat_tags(per_file@, f as int).len(),
            sm_view(m@) == set_from(flat_tags(per_file@, f as int), n),
            all == flat_tags(per_file@, per_file@.len() as int),
        decreases per_file@.len() - f,
    {
        let tags = &per_file[f];
        let ghost before = flat_tags(per_file@, f as int);
        let mut k: usize = 0;
        while k < tags.len()
            invariant
                f < per_file@.len(),
                *tags == per_file@[f as int],
                k <= tags@.len(),
                before == flat_tags(per_file@, f as int),
                n == before.len() + k,
                sm_view(m@) == set_from(before + strings_view(tags@).take(k as int), n),
            decreases tags@.len() - k,
        {
            let ghost prev = before + strings_view(tags@).take(k as int);
            let ghost next = before + strings_view(tags@).take(k + 1);
            assert(next.take(n) =~= prev);
            assert(next[n] == tags@[k as int]@);
            proof {
                lemma_set_from_same(next, prev, n);
            }
            sm_insert_exec(&mut m, chars_of(tags[k].as_str()), 0);
            k += 1;
            proof {
                n = n + 1;
            }
        }
        assert(strings_view(tags@).take(k as int) =~= strings_view(tags@));
        f += 1;
    }
    let mut out: Vec<String> = Vec::new();
    let mut j: usize = 0;
    while j < m.len()
        invariant
            j <= m@.len(),
            strings_view(out@) == sm_keys(sm_view(m@)).take(j as int),
        decreases m@.len() - j,
    {
        let ghost before = out@;
        out.push(string_of_range(&m[j].0, 0, m[j].0.len()));
        assert(m@[j as int].0@.subrange(0, m@[j as int].0@.len() as int) =~= m@[j as int].0@);
        assert(strings_view(out@) =~= strings_view(before).push(m@[j as int].0@));
        assert(sm_keys(sm_view(m@)).take(j + 1) =~= sm_keys(sm_view(m@)).take(j as int).push(
            m@[j as int].0@,
        ));
        j += 1;
    }
    assert(sm_keys(sm_view(m@)).take(j as int) =~= sm_keys(sm_view(m@)));
    out
}


/// Tag with occurrence statistics
pub struct TagCount {
    /// The tag name (without # prefix)
    pub tag: String,
    /// Number of documents containing this tag
    pub document_count: usize,
}

/// Whether `t` is among the tags `tags`.
pub open spec fn has_tag(tags: Seq<String>, t: Seq<char>) -> bool {
    exists|i: int| 0 <= i < tags.len() && (#[trigger] tags[i])@ == t
}

/// How many of the first `n` files carry tag `t`.
pub open spec fn doc_count(per_file: Seq<Vec<String>>, t: Seq<char>, n: int) -> int
    decreases n,
{
    if n <= 0 {
        0
    } else {
        doc_count(per_file, t, n - 1) + if has_tag(per_file[n - 1]@, t) {
            1int
        } else {
            0int
        }
    }
}

/// Where an entry with count `c` goes among `r`, sorted by count (largest first): after
/// every entry with a count of at least `c`.
pub open spec fn count_pos(r: Seq<(Seq<char>, int)>, c: int, i: int) -> int
    decreases r.len() - i,
{
    if i < 0 || i >= r.len() {
        r.len() as int
    } else if r[i].1 >= c {
        count_pos(r, c, i + 1)
    } else {
        i
    }
}

/// `es[..n]` sorted by count, largest first, stably (entries of equal count keep their order).
pub open spec fn sort_by_count(es: Seq<(Seq<char>, int)>, n: int) -> Seq<(Seq<char>, int)>
    decreases n,
{
    if n <= 0 {
        seq![]
    } else {
        let r = sort_by_count(es, n - 1);
        r.insert(count_pos(r, es[n - 1].1, 0), es[n - 1])
    }
}

/// Each distinct tag with the number of files that carry it, most common first, tags of
/// equal count in ascending order.
pub open spec fn tag_counts(per_file: Seq<Vec<String>>) -> Seq<(Seq<char>, int)> {
    let tags = unique_tags(per_file);
    let es = tags.map_values(|t: Seq<char>| (t, doc_count(per_file, t, per_file.len() as int)));
    sort_by_count(es, es.len() as int)
}

pub open spec fn counts_view(v: Seq<TagCount>) -> Seq<(Seq<char>, int)> {
    v.map_values(|c: TagCount| (c.tag@, c.document_count as int))
}

fn has_tag_exec(tags: &Vec<String>, t: &Vec<char>) -> (r: bool)
    ensures
        r == has_tag(tags@, t@),
{
    let mut i: usize = 0;
    while i < tags.len()
        invariant
            i <= tags@.len(),
            forall|j: int| 0 <= j < i ==> (#[trigger] tags@[j])@ != t@,
        decreases tags@.len() - i,
    {
        let v = chars_of(tags[i].as_str());
        if chars_eq(&v, t) {
            return true;
        }
        i += 1;
    }
    false
}

proof fn lemma_count_pos(r: Seq<(Seq<char>, int)>, c: int, i: int)
    requires
        0 <= i <= r.len(),
    ensures
        i <= count_pos(r, c, i) <= r.len(),
    decreases r.len() - i,
{
    if i < r.len() && r[i].1 >= c {
        lemma_count_pos(r, c, i + 1);
    }
}

/// Each distinct tag of the files' tag lists with the number of files that carry it, most
/// common first, then by tag.
pub fn count_tags(per_file: &Vec<Vec<String>>) -> (r: Vec<TagCount>)
    ensures
        counts_view(r@) == tag_counts(per_file@),
{
    let tags = collect_unique_tags(per_file);
    let ghost ut = unique_tags(per_file@);
    let ghost es = ut.map_values(|t: Seq<char>| (t, doc_count(per_file@, t, per_file@.len() as int)));
    let mut sorted: Vec<TagCount> = Vec::new();
    let mut i: usize = 0;
    while i < tags.len()
        invariant
            i <= tags@.len(),
            strings_view(tags@) == ut,
            es == ut.map_values(|t: Seq<char>| (t, doc_count(per_file@, t, per_file@.len() as int))),
            counts_view(sorted@) == sort_by_count(es, i as int),
        decreases tags@.len() - i,
    {
        let tv = chars_of(tags[i].as_str());
        let mut count: usize = 0;
        let mut f: usize = 0;
        while f < per_file.len()
            invariant
                f <= per_file@.len(),
                count <= f,
                count == doc_count(per_file@, tv@, f as int),
            decreases per_file@.len() - f,
        {
            if has_tag_exec(&per_file[f], &tv) {
                count += 1;
            }
            f += 1;
        }
        assert(es[i as int] == (tv@, count as int));
        let ghost r = counts_view(sorted@);
        let mut p: usize = 0;
        while p < sorted.len() && sorted[p].document_count >= count
            invariant
                p <= sorted@.len(),
                r == counts_view(sorted@),
                count_pos(r, count as int, 0) == count_pos(r, count as int, p as int),
            decreases sorted@.len() - p,
        {
            p += 1;
        }
        let ghost before = sorted@;
        sorted.insert(p, TagCount { tag: tags[i].clone(), document_count: count });
        assert(counts_view(sorted@) =~= r.insert(p as int, (tv@, count as int)));
        i += 1;
    }
    sorted
}

// ---------------------------------------------------------------------------
// Files by tag
// ---------------------------------------------------------------------------

/// Represents a file that matches tag search criteria
pub struct TaggedFile {
    /// Path to the file
    pub file_path: String,
    /// File name without path
    pub file_name: String,
    /// Tags that matched the search criteria
    pub matched_tags: Vec<String>,
    /// All tags found in the file's frontmatter
    pub all_tags: Vec<String>,
}

/// Whether the lower-cased `t` is the lower-cased form of one of `tags`.
pub open spec fn has_lower_tag(tags: Seq<String>, t: Seq<char>) -> bool {
    exists|i: int| 0 <= i < tags.len() && lowercase((#[trigger] tags[i])@) == t
}

/// The search tags (lower-cased) from `k` on that the file's tags carry, ignoring case.
pub open spec fn matched_from(search: Seq<Seq<char>>, tags: Seq<String>, k: int) -> Seq<Seq<char>>
    decreases search.len() - k,
{
    if k < 0 || k >= search.len() {
        seq![]
    } else {
        let rest = matched_from(search, tags, k + 1);
        if has_lower_tag(tags, search[k]) {
            seq![search[k]] + rest
        } else {
            rest
        }
    }
}

/// The lower-cased search tags.
pub open spec fn lowered(tags: Seq<String>) -> Seq<Seq<char>> {
    tags.map_values(|t: String| lowercase(t@))
}

/// `tf` reports the file `path` with tags `all`, matched against the search tags `search`.
pub open spec fn tagged_file_is(
    tf: TaggedFile,
    path: Seq<char>,
    name: Seq<char>,
    all: Seq<String>,
    search: Seq<String>,
) -> bool {
    &&& tf.file_path@ == path
    &&& tf.file_name@ == name
    &&& strings_view(tf.matched_tags@) == matched_from(lowered(search), all, 0)
    &&& strings_view(tf.all_tags@) == strings_view(all)
}

/// `tf` reports file `k` of `files`, given as `(path, tags)`, for the search tags `search`.
pub open spec fn reports_file(tf: TaggedFile, files: Seq<(String, Vec<String>)>, k: int, search: Seq<String>) -> bool {
    &&& 0 <= k < files.len()
    &&& tagged_file_is(
        tf,
        files[k].0@,
        file_name_in(files[k].0@, files[k].0@.len() as int).unwrap(),
        files[k].1@,
        search,
    )
}

/// Whether a file with tags `all` is reported: it has tags, and all the search tags (or, for
/// `match_all` false, at least one) are among them.
pub open spec fn file_selected(all: Seq<String>, search: Seq<String>, match_all: bool) -> bool {
    let m = matched_from(lowered(search), all, 0);
    &&& all.len() > 0
    &&& if match_all {
        m.len() == search.len()
    } else {
        m.len() > 0
    }
}

/// The files among `files[k..]`, given as `(path, tags)`, that a tag search reports.
pub open spec fn selected_files(
    files: Seq<(String, Vec<String>)>,
    search: Seq<String>,
    match_all: bool,
    k: int,
) -> Seq<int>
    decreases files.len() - k,
{
    if k < 0 || k >= files.len() {
        seq![]
    } else {
        let rest = selected_files(files, search, match_all, k + 1);
        if file_selected(files[k].1@, search, match_all) && file_name_in(
            files[k].0@,
            files[k].0@.len() as int,
        ) is Some {
            seq![k] + rest
        } else {
            rest
        }
    }
}

fn lowercase_all(tags: &Vec<String>) -> (r: Vec<Vec<char>>)
    ensures
        r@.len() == tags@.len(),
        forall|i: int| 0 <= i < r@.len() ==> (#[trigger] r@[i])@ == lowercase(tags@[i]@),
{
    let mut out: Vec<Vec<char>> = Vec::new();
    let mut i: usize = 0;
    while i < tags.len()
        invariant
            i <= tags@.len(),
            out@.len() == i,
            forall|j: int| 0 <= j < i ==> (#[trigger] out@[j])@ == lowercase(tags@[j]@),
        decreases tags@.len() - i,
    {
        let l = to_lowercase(tags[i].as_str());
        out.push(chars_of(l.as_str()));
        i += 1;
    }
    out
}

impl TagExtractor {
    /// Search the files, given as `(path, tags)`, for those that carry the tags (all of them
    /// when `match_all`, else any), ignoring case; files in the given order.
    pub fn search_by_tags(&self, files: &Vec<(String, Vec<String>)>, tags: &Vec<String>, match_all: bool) -> (r:
        Vec<TaggedFile>)
        ensures
            ({
                let sel = selected_files(files@, tags@, match_all, 0);
                &&& r@.len() == sel.len()
                &&& forall|k: int| 0 <= k < r@.len() ==> reports_file(#[trigger] r@[k], files@, sel[k], tags@)
            }),
    {
        let search = lowercase_all(tags);
        let ghost ls = lowered(tags@);
        assert(forall|i: int| 0 <= i < search@.len() ==> (#[trigger] search@[i])@ == ls[i]);
        let ghost all = selected_files(files@, tags@, match_all, 0);
        let ghost mut done: Seq<int> = seq![];
        let mut out: Vec<TaggedFile> = Vec::new();
        let mut k: usize = 0;
        while k < files.len()
            invariant
                k <= files@.len(),
                search@.len() == tags@.len(),
                ls == lowered(tags@),
                forall|i: int| 0 <= i < search@.len() ==> (#[trigger] search@[i])@ == ls[i],
                all == selected_files(files@, tags@, match_all, 0),
                done + selected_files(files@, tags@, match_all, k as int) == all,
                out@.len() == done.len(),
                forall|j: int| 0 <= j < out@.len() ==> reports_file(#[trigger] out@[j], files@, done[j], tags@),
            decreases files@.len() - k,
        {
            let all_tags = &files[k].1;
            let ghost rest = selected_files(files@, tags@, match_all, k + 1);
            let matched = matched_tags(&search, all_tags, Ghost(ls));
            assert(strings_view(matched@) =~= matched_from(ls, all_tags@, 0));
            let selected = all_tags.len() > 0 && if match_all {
                matched.len() == tags.len()
            } else {
                matched.len() > 0
            };
            let name = if selected {
                file_name(files[k].0.as_str())
            } else {
                None
            };
            match name {
                Some(n) => {
                    let ghost before = out@;
                    out.push(
                        TaggedFile {
                            file_path: files[k].0.clone(),
                            file_name: n,
                            matched_tags: matched,
                            all_tags: clone_tags(all_tags),
                        },
                    );
                    proof {
                        assert(selected_files(files@, tags@, match_all, k as int) == seq![k as int] + rest);
                        assert(done.push(k as int) + rest =~= all);
                        assert forall|j: int| 0 <= j < out@.len() implies reports_file(
                            #[trigger] out@[j],
                            files@,
                            done.push(k as int)[j],
                            tags@,
                        ) by {
                            if j < before.len() {
                                assert(out@[j] == before[j]);
                            }
                        }
                        done = done.push(k as int);
                    }
                },
                None => {
                    assert(selected_files(files@, tags@, match_all, k as int) == rest);
                },
            }
            k += 1;
        }
        assert(done =~= all);
        out
    }
}


/// The search tags (lower-cased, `search`) that the file's tags carry, ignoring case.
fn matched_tags(search: &Vec<Vec<char>>, all_tags: &Vec<String>, Ghost(ls): Ghost<Seq<Seq<char>>>) -> (r: Vec<String>)
    requires
        search@.len() == ls.len(),
        forall|i: int| 0 <= i < search@.len() ==> (#[trigger] search@[i])@ == ls[i],
    ensures
        strings_view(r@) == matched_from(ls, all_tags@, 0),
{
    let normalized = lowercase_all(all_tags);
    let mut matched: Vec<String> = Vec::new();
    let mut s: usize = 0;
    while s < search.len()
        invariant
            s <= search@.len() == ls.len(),
            forall|i: int| 0 <= i < search@.len() ==> (#[trigger] search@[i])@ == ls[i],
            normalized@.len() == all_tags@.len(),
            forall|i: int|
                0 <= i < normalized@.len() ==> (#[trigger] normalized@[i])@ == lowercase(
                    all_tags@[i]@,
                ),
            strings_view(matched@) + matched_from(ls, all_tags@, s as int) == matched_from(
                ls,
                all_tags@,
                0,
            ),
        decreases search@.len() - s,
    {
        let mut i: usize = 0;
        let mut found = false;
        while i < normalized.len() && !found
            invariant
                i <= normalized@.len() == all_tags@.len(),
                s < search@.len(),
                forall|x: int|
                    0 <= x < normalized@.len() ==> (#[trigger] normalized@[x])@ == lowercase(
                        all_tags@[x]@,
                    ),
                found ==> has_lower_tag(all_tags@, search@[s as int]@),
                !found ==> forall|x: int|
                    0 <= x < i ==> lowercase((#[trigger] all_tags@[x])@) != search@[s as int]@,
            decreases normalized@.len() - i,
        {
            if chars_eq(&normalized[i], &search[s]) {
                found = true;
            }
            i += 1;
        }
        let ghost before = matched@;
        if found {
            matched.push(string_of_range(&search[s], 0, search[s].len()));
            assert(search@[s as int]@.subrange(0, search@[s as int]@.len() as int) =~= search@[s as int]@);
            assert(strings_view(matched@) =~= strings_view(before).push(ls[s as int]));
            assert(strings_view(matched@) + matched_from(ls, all_tags@, s + 1) =~= strings_view(
                before,
            ) + matched_from(ls, all_tags@, s as int));
        } else {
            assert(!has_lower_tag(all_tags@, ls[s as int]));
        }
        s += 1;
    }
    assert(strings_view(matched@) =~= matched_from(ls, all_tags@, 0));
    matched
}

fn clone_tags(v: &Vec<String>) -> (r: Vec<String>)
    ensures
        r@ == v@,
{
    let mut out: Vec<String> = Vec::new();
    let mut i: usize = 0;
    while i < v.len()
        invariant
            i <= v@.len(),
            out@ == v@.take(i as int),
        decreases v@.len() - i,
    {
        out.push(v[i].clone());
        assert(out@ =~= v@.take(i + 1));
        i += 1;
    }
    assert(v@.take(i as int) =~= v@);
    out
}


// ---------------------------------------------------------------------------
// Requests and responses
// ---------------------------------------------------------------------------

/// Parameters for the extract_tags operation
pub struct ExtractTagsRequest {
    /// Path to scan (CLI only - not used in HTTP/MCP)
    pub path: Option<String>,
    /// Subpath within the base directory to search
    pub subpath: Option<String>,
}

/// Response from the extract_tags operation
pub struct ExtractTagsResponse {
    pub tags: Vec<String>,
}

/// Parameters for the list_tags operation
pub struct ListTagsRequest {
    /// Path to scan (CLI only - not used in HTTP/MCP)
    pub path: Option<String>,
    /// Subpath within the vault to search
    pub subpath: Option<String>,
    /// Minimum document count to include a tag
    pub min_count: Option<usize>,
    /// Maximum number of tags to return
    pub limit: Option<usize>,
}

/// Response from the list_tags operation
pub struct ListTagsResponse {
    /// List of tags with their document counts
    pub tags: Vec<TagCount>,
    /// Total number of unique tags found (before filtering/limiting)
    pub total_unique_tags: usize,
    /// Whether the results were truncated due to limit parameter
    pub truncated: bool,
}

/// Parameters for the search_by_tags operation
pub struct SearchByTagsRequest {
    /// Path to scan (CLI only - not used in HTTP/MCP)
    pub path: Option<String>,
    /// Tags to search for
    pub tags: Vec<String>,
    /// File must have ALL tags (AND logic). Default: false (OR logic)
    pub match_all: Option<bool>,
    /// Subpath within the directory to search
    pub subpath: Option<String>,
    /// Limit the number of files returned
    pub limit: Option<usize>,
}

/// Response from the search_by_tags operation
pub struct SearchByTagsResponse {
    pub files: Vec<TaggedFile>,
    pub total_count: usize,
}

/// The counts from `k` on with at least `min` documents.
pub open spec fn at_least(cs: Seq<(Seq<char>, int)>, min: int, k: int) -> Seq<(Seq<char>, int)>
    decreases cs.len() - k,
{
    if k < 0 || k >= cs.len() {
        seq![]
    } else {
        let rest = at_least(cs, min, k + 1);
        if cs[k].1 >= min {
            seq![cs[k]] + rest
        } else {
            rest
        }
    }
}

/// The answer to a tag listing, given the counted tags: those with at least `min_count`
/// documents (when given), cut to `limit` (when given), with the number of tags before
/// filtering and whether the limit cut some.
pub fn list_tags_response(tags: Vec<TagCount>, request: &ListTagsRequest) -> (r: ListTagsResponse)
    ensures
        r.total_unique_tags == tags@.len(),
        ({
            let kept = match request.min_count {
                Some(m) => at_least(counts_view(tags@), m as int, 0),
                None => counts_view(tags@),
            };
            match request.limit {
                Some(l) => if kept.len() > l {
                    counts_view(r.tags@) == kept.take(l as int) && r.truncated
                } else {
                    counts_view(r.tags@) == kept && !r.truncated
                },
                None => counts_view(r.tags@) == kept && !r.truncated,
            }
        }),
{
    let total_unique_tags = tags.len();
    let ghost all = counts_view(tags@);
    let mut kept: Vec<TagCount> = Vec::new();
    match request.min_count {
        Some(min) => {
            let mut k: usize = 0;
            while k < tags.len()
                invariant
                    k <= tags@.len(),
                    all == counts_view(tags@),
                    counts_view(kept@) + at_least(all, min as int, k as int) == at_least(
                        all,
                        min as int,
                        0,
                    ),
                decreases tags@.len() - k,
            {
                let ghost before = kept@;
                if tags[k].document_count >= min {
                    kept.push(TagCount { tag: tags[k].tag.clone(), document_count: tags[k].document_count });
                    assert(counts_view(kept@) =~= counts_view(before).push(all[k as int]));
                    assert(counts_view(kept@) + at_least(all, min as int, k + 1) =~= counts_view(
                        before,
                    ) + at_least(all, min as int, k as int));
                }
                k += 1;
            }
            assert(at_least(all, min as int, k as int) =~= seq![]);
            assert(counts_view(kept@) =~= at_least(all, min as int, 0));
        },
        None => {
            kept = tags;
        },
    }
    let truncated = match request.limit {
        Some(limit) => if kept.len() > limit {
            kept.truncate(limit);
            true
        } else {
            false
        },
        None => false,
    };
    ListTagsResponse { tags: kept, total_unique_tags, truncated }
}

/// The answer to a tag search, given the matching files: at most `limit` of them (when
/// given), with the number found.
pub fn search_by_tags_response(files: Vec<TaggedFile>, request: &SearchByTagsRequest) -> (r:
    SearchByTagsResponse)
    ensures
        r.total_count == files@.len(),
        r.files@ == match request.limit {
            Some(l) => if files@.len() > l {
                files@.take(l as int)
            } else {
                files@
            },
            None => files@,
        },
{
    let total_count = files.len();
    let mut files = files;
    if let Some(limit) = request.limit {
        files.truncate(limit);
    }
    SearchByTagsResponse { files, total_count }
}


/// Entry `a` is listed before entry `b`: a higher count, or the same count and a smaller tag.
pub open spec fn count_before(a: (Seq<char>, int), b: (Seq<char>, int)) -> bool {
    a.1 > b.1 || (a.1 == b.1 && lex_lt(a.0, b.0))
}

proof fn lemma_count_pos_props(r: Seq<(Seq<char>, int)>, c: int, i: int)
    requires
        0 <= i <= r.len(),
        forall|q: int| 0 <= q < i ==> (#[trigger] r[q]).1 >= c,
    ensures
        i <= count_pos(r, c, i) <= r.len(),
        forall|q: int| 0 <= q < count_pos(r, c, i) ==> (#[trigger] r[q]).1 >= c,
        count_pos(r, c, i) < r.len() ==> r[count_pos(r, c, i)].1 < c,
    decreases r.len() - i,
{
    if i < r.len() && r[i].1 >= c {
        lemma_count_pos_props(r, c, i + 1);
    }
}

proof fn lemma_set_from_ordered(keys: Seq<Seq<char>>, n: int)
    ensures
        sm_ordered(set_from(keys, n)),
    decreases n,
{
    if n > 0 {
        lemma_set_from_ordered(keys, n - 1);
        lemma_sm_insert_ordered(set_from(keys, n - 1), keys[n - 1], 0);
    }
}

proof fn lemma_sorted_by_count(es: Seq<(Seq<char>, int)>, n: int)
    requires
        0 <= n <= es.len(),
        forall|i: int, j: int| 0 <= i < j < es.len() ==> lex_lt(#[trigger] es[i].0, #[trigger] es[j].0),
    ensures
        forall|i: int, j: int|
            0 <= i < j < sort_by_count(es, n).len() ==> count_before(
                #[trigger] sort_by_count(es, n)[i],
                #[trigger] sort_by_count(es, n)[j],
            ),
        forall|i: int|
            0 <= i < sort_by_count(es, n).len() ==> exists|k: int|
                0 <= k < n && #[trigger] sort_by_count(es, n)[i] == es[k],
        sort_by_count(es, n).len() == n,
    decreases n,
{
    if n > 0 {
        lemma_sorted_by_count(es, n - 1);
        let r = sort_by_count(es, n - 1);
        let x = es[n - 1];
        lemma_count_pos_props(r, x.1, 0);
        let p = count_pos(r, x.1, 0);
        let t = sort_by_count(es, n);
        assert(t == r.insert(p, x));
        assert forall|q: int| 0 <= q < r.len() implies lex_lt((#[trigger] r[q]).0, x.0) by {
            let k = choose|k: int| 0 <= k < n - 1 && r[q] == es[k];
            assert(lex_lt(es[k].0, es[n - 1].0));
        }
        assert forall|i: int, j: int| 0 <= i < j < t.len() implies count_before(#[trigger] t[i], #[trigger] t[j]) by {
            if j < p {
                assert(t[i] == r[i] && t[j] == r[j]);
            } else if j == p {
                assert(t[i] == r[i]);
                assert(lex_lt(r[i].0, x.0));
            } else if i < p {
                assert(t[i] == r[i] && t[j] == r[j - 1]);
            } else if i == p {
                assert(t[j] == r[j - 1]);
                if j - 1 > p {
                    assert(count_before(r[p], r[j - 1]));
                }
            } else {
                assert(t[i] == r[i - 1] && t[j] == r[j - 1]);
            }
        }
        assert forall|i: int| 0 <= i < t.len() implies exists|k: int| 0 <= k < n && #[trigger] t[i] == es[k] by {
            if i < p {
                assert(t[i] == r[i]);
            } else if i == p {
                assert(t[i] == es[n - 1]);
            } else {
                assert(t[i] == r[i - 1]);
            }
        }
    }
}

/// Tag counts come most common first, and tags of equal count in ascending order.
pub proof fn law_tag_counts_order(per_file: Seq<Vec<String>>)
    ensures
        forall|i: int, j: int|
            0 <= i < j < tag_counts(per_file).len() ==> count_before(
                #[trigger] tag_counts(per_file)[i],
                #[trigger] tag_counts(per_file)[j],
            ),
{
    let flat = flat_tags(per_file, per_file.len() as int);
    lemma_set_from_ordered(flat, flat.len() as int);
    let tags = unique_tags(per_file);
    let es = tags.map_values(|t: Seq<char>| (t, doc_count(per_file, t, per_file.len() as int)));
    assert forall|i: int, j: int| 0 <= i < j < es.len() implies lex_lt(#[trigger] es[i].0, #[trigger] es[j].0) by {
        let m = set_from(flat, flat.len() as int);
        assert(es[i].0 == m[i].0 && es[j].0 == m[j].0);
    }
    lemma_sorted_by_count(es, es.len() as int);
}


/// A tag search ignores case: search tags that lower-case alike select the same files.
pub proof fn law_tag_search_ignores_case(
    files: Seq<(String, Vec<String>)>,
    tags1: Seq<String>,
    tags2: Seq<String>,
    match_all: bool,
    k: int,
)
    requires
        lowered(tags1) == lowered(tags2),
    ensures
        selected_files(files, tags1, match_all, k) == selected_files(files, tags2, match_all, k),
    decreases files.len() - k,
{
    assert(tags1.len() == lowered(tags1).len());
    assert(tags2.len() == lowered(tags2).len());
    if 0 <= k < files.len() {
        law_tag_search_ignores_case(files, tags1, tags2, match_all, k + 1);
    }
}

/// A file that carries all the search tags carries one of them: a search for all of several
/// tags selects no file that a search for any of them leaves out.
pub proof fn law_all_tags_implies_any(all: Seq<String>, search: Seq<String>)
    requires
        search.len() > 0,
        file_selected(all, search, true),
    ensures
        file_selected(all, search, false),
{
}

} // verus!

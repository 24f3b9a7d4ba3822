//! Daily notes: file names from date patterns, which note a date has, and date-range searches.
use vstd::prelude::*;

use crate::date_utils::{
    date_day, date_month, date_of_day, date_range, date_year, is_valid_date, parse_date, spec_date_range,
    today, validate_date,
};
use crate::error::{invalid_params, CapabilityError, INVALID_PARAMS};
use crate::text::{
    chars_eq, chars_of, lemma_lex_irrefl, lemma_lex_trans, lex_less, lex_lt, occurs_at, occurs_at_exec, padded,
    push_padded, push_range, push_str, strings_view,
    to_string,
};

verus! {

// ---------------------------------------------------------------------------
// Patterns
// ---------------------------------------------------------------------------

/// `s[i..]` with the occurrences of `pat`, found left to right without overlap, replaced by
/// `rep`, as `str::replace` does: an empty `pat` occurs before every character and at the end.
pub open spec fn replace_from(s: Seq<char>, pat: Seq<char>, rep: Seq<char>, i: int) -> Seq<char>
    decreases s.len() - i,
{
    if i < 0 || i > s.len() {
        seq![]
    } else if pat.len() == 0 {
        if i == s.len() {
            rep
        } else {
            rep + seq![s[i]] + replace_from(s, pat, rep, i + 1)
        }
    } else if i == s.len() {
        seq![]
    } else if occurs_at(s, pat, i) {
        rep + replace_from(s, pat, rep, i + pat.len())
    } else {
        seq![s[i]] + replace_from(s, pat, rep, i + 1)
    }
}

/// `s.replace(pat, rep)`.
pub fn replace_all(s: &str, pat: &str, rep: &str) -> (r: String)
    ensures
        r@ == replace_from(s@, pat@, rep@, 0),
{
    let sv = chars_of(s);
    let pv = chars_of(pat);
    let mut out = String::new();
    let mut i: usize = 0;
    if pv.len() == 0 {
        while i < sv.len()
            invariant
                i <= sv.len(),
                sv@ == s@,
                pv@ == pat@,
                pv@.len() == 0,
                out@ + replace_from(s@, pat@, rep@, i as int) == replace_from(s@, pat@, rep@, 0),
            decreases sv.len() - i,
        {
            let ghost before = out@;
            push_str(&mut out, rep);
            out.push(sv[i]);
            assert(out@ + replace_from(s@, pat@, rep@, i + 1) =~= before + replace_from(
                s@,
                pat@,
                rep@,
                i as int,
            ));
            i += 1;
        }
        let ghost before = out@;
        push_str(&mut out, rep);
        assert(out@ =~= before + replace_from(s@, pat@, rep@, i as int));
        return out;
    }
    while i < sv.len()
        invariant
            i <= sv.len(),
            sv@ == s@,
            pv@ == pat@,
            pv@.len() > 0,
            out@ + replace_from(s@, pat@, rep@, i as int) == replace_from(s@, pat@, rep@, 0),
        decreases sv.len() - i,
    {
        let ghost before = out@;
        if pv.len() <= sv.len() - i && occurs_at_exec(&sv, &pv, i) {
            push_str(&mut out, rep);
            assert(out@ + replace_from(s@, pat@, rep@, i + pat@.len()) =~= before + replace_from(
                s@,
                pat@,
                rep@,
                i as int,
            ));
            i += pv.len();
        } else {
            out.push(sv[i]);
            assert(out@ + replace_from(s@, pat@, rep@, i + 1) =~= before + replace_from(
                s@,
                pat@,
                rep@,
                i as int,
            ));
            i += 1;
        }
    }
    assert(out@ =~= replace_from(s@, pat@, rep@, 0));
    out
}

/// The path that `pattern` gives for `date`: `YYYY`, then `MM`, then `DD` replaced by the
/// zero-padded year, month and day; `None` when the date is not valid.
pub open spec fn pattern_path(pattern: Seq<char>, date: Seq<char>) -> Option<Seq<char>> {
    if !is_valid_date(date) {
        None
    } else {
        let a = replace_from(pattern, seq!['Y', 'Y', 'Y', 'Y'], padded(date_year(date), 4), 0);
        let b = replace_from(a, seq!['M', 'M'], padded(date_month(date), 2), 0);
        Some(replace_from(b, seq!['D', 'D'], padded(date_day(date), 2), 0))
    }
}

fn padded_string(n: u64, w: usize) -> (r: String)
    ensures
        r@ == padded(n as nat, w as nat),
{
    let mut s = String::new();
    push_padded(&mut s, n, w);
    assert(s@ =~= padded(n as nat, w as nat));
    s
}

/// Apply a pattern by substituting YYYY, MM, DD placeholders with date components
///
/// Example: "YYYY/MM/DD.md" with date "2025-01-20" → "2025/01/20.md"
pub fn apply_pattern(pattern: &str, date: &str) -> (r: Option<String>)
    ensures
        match pattern_path(pattern@, date@) {
            Some(p) => r is Some && r.unwrap()@ == p,
            None => r is None,
        },
{
    let (year, month, day) = match parse_date(date) {
        Some(parts) => parts,
        None => return None,
    };
    let ys = padded_string(year as u64, 4);
    let ms = padded_string(month as u64, 2);
    let ds = padded_string(day as u64, 2);
    proof {
        reveal_strlit("YYYY");
        reveal_strlit("MM");
        reveal_strlit("DD");
        assert("YYYY"@ =~= seq!['Y', 'Y', 'Y', 'Y']);
        assert("MM"@ =~= seq!['M', 'M']);
        assert("DD"@ =~= seq!['D', 'D']);
    }
    let a = replace_all(pattern, "YYYY", ys.as_str());
    let b = replace_all(a.as_str(), "MM", ms.as_str());
    let c = replace_all(b.as_str(), "DD", ds.as_str());
    Some(c)
}


// ---------------------------------------------------------------------------
// Which note a date has
// ---------------------------------------------------------------------------

/// `Invalid pattern: <pattern>`.
pub open spec fn invalid_pattern_message(pattern: Seq<char>) -> Seq<char> {
    seq!['I', 'n', 'v', 'a', 'l', 'i', 'd', ' ', 'p', 'a', 't', 't', 'e', 'r', 'n', ':', ' '] + pattern
}

/// The candidate paths, relative to the vault, that the patterns give for `date`, in pattern
/// order; the lookup fails on the first pattern when the date is not valid.
pub fn daily_note_candidates(date: &str, patterns: &Vec<String>) -> (r: Result<Vec<String>, String>)
    ensures
        match r {
            Ok(v) => {
                &&& (patterns@.len() == 0 || is_valid_date(date@))
                &&& v@.len() == patterns@.len()
                &&& forall|k: int|
                    0 <= k < v@.len() ==> pattern_path(patterns@[k]@, date@) == Some(
                        #[trigger] v@[k]@,
                    )
            },
            Err(e) => {
                &&& patterns@.len() > 0
                &&& !is_valid_date(date@)
                &&& e@ == invalid_pattern_message(patterns@[0]@)
            },
        },
{
    let mut out: Vec<String> = Vec::new();
    let mut i: usize = 0;
    while i < patterns.len()
        invariant
            i <= patterns@.len(),
            i > 0 ==> is_valid_date(date@),
            out@.len() == i,
            forall|k: int|
                0 <= k < i ==> pattern_path(patterns@[k]@, date@) == Some(#[trigger] out@[k]@),
        decreases patterns.len() - i,
    {
        match apply_pattern(patterns[i].as_str(), date) {
            Some(p) => {
                out.push(p);
            },
            None => {
                let mut msg = to_string("Invalid pattern: ");
                push_str(&mut msg, patterns[i].as_str());
                proof {
                    reveal_strlit("Invalid pattern: ");
                    assert(msg@ =~= invalid_pattern_message(patterns@[0]@));
                }
                return Err(msg);
            },
        }
        i += 1;
    }
    Ok(out)
}

/// `["a", "b"]`: the paths quoted and listed.
pub open spec fn quoted_list_from(ps: Seq<Seq<char>>, k: int) -> Seq<char>
    decreases ps.len() - k,
{
    if k < 0 || k >= ps.len() {
        seq![]
    } else {
        (if k > 0 {
            seq![',', ' ']
        } else {
            seq![]
        }) + seq!['"'] + ps[k] + seq!['"'] + quoted_list_from(ps, k + 1)
    }
}

pub open spec fn quoted_list(ps: Seq<Seq<char>>) -> Seq<char> {
    seq!['['] + quoted_list_from(ps, 0) + seq![']']
}

/// `Multiple daily notes found for date <date>: <paths>`.
pub open spec fn multiple_notes_message(date: Seq<char>, found: Seq<Seq<char>>) -> Seq<char> {
    seq![
        'M', 'u', 'l', 't', 'i', 'p', 'l', 'e', ' ', 'd', 'a', 'i', 'l', 'y', ' ', 'n', 'o', 't', 'e',
        's', ' ', 'f', 'o', 'u', 'n', 'd', ' ', 'f', 'o', 'r', ' ', 'd', 'a', 't', 'e', ' ',
    ] + date + seq![':', ' '] + quoted_list(found)
}

/// The distinct paths among the first `n` of `s`, each where it first occurs.
pub open spec fn distinct_paths(s: Seq<Seq<char>>, n: int) -> Seq<Seq<char>>
    decreases n,
{
    if n <= 0 {
        seq![]
    } else {
        let d = distinct_paths(s, n - 1);
        if d.contains(s[n - 1]) {
            d
        } else {
            d.push(s[n - 1])
        }
    }
}

fn same_text(a: &str, b: &str) -> (r: bool)
    ensures
        r == (a@ == b@),
{
    let av = chars_of(a);
    let bv = chars_of(b);
    chars_eq(&av, &bv)
}

/// `found` with repeated paths left out, each path where it first occurs.
fn distinct_found(found: Vec<String>) -> (r: Vec<String>)
    ensures
        strings_view(r@) == distinct_paths(strings_view(found@), found@.len() as int),
{
    let ghost fv = strings_view(found@);
    let mut out: Vec<String> = Vec::new();
    let mut i: usize = 0;
    while i < found.len()
        invariant
            i <= found@.len(),
            fv == strings_view(found@),
            strings_view(out@) == distinct_paths(fv, i as int),
        decreases found@.len() - i,
    {
        let mut seen = false;
        let mut j: usize = 0;
        while j < out.len()
            invariant
                j <= out@.len(),
                i < found@.len(),
                seen == (exists|k: int| 0 <= k < j && out@[k]@ == found@[i as int]@),
            decreases out@.len() - j,
        {
            if same_text(out[j].as_str(), found[i].as_str()) {
                seen = true;
            }
            j += 1;
        }
        let ghost d = strings_view(out@);
        proof {
            assert(fv[i as int] == found@[i as int]@);
            if seen {
                let k = choose|k: int| 0 <= k < j && out@[k]@ == found@[i as int]@;
                assert(d[k] == fv[i as int]);
            } else {
                assert forall|k: int| 0 <= k < d.len() implies d[k] != fv[i as int] by {
                    assert(d[k] == out@[k]@);
                }
            }
        }
        if !seen {
            out.push(found[i].clone());
            assert(strings_view(out@) =~= d.push(fv[i as int]));
        }
        i += 1;
    }
    out
}

/// The note of a date among the candidate paths that exist in the vault (a path may come
/// from several patterns): none, the one, or an error when they are different files.
pub fn choose_daily_note(date: &str, found: Vec<String>) -> (r: Result<Option<String>, String>)
    ensures
        ({
            let d = distinct_paths(strings_view(found@), found@.len() as int);
            &&& d.len() == 0 ==> r == Ok::<Option<String>, String>(None)
            &&& d.len() == 1 ==> (r matches Ok(Some(p)) && p@ == d[0])
            &&& d.len() > 1 ==> r is Err && r->Err_0@ == multiple_notes_message(date@, d)
        }),
{
    let found = distinct_found(found);
    if found.len() == 0 {
        return Ok(None);
    }
    if found.len() == 1 {
        let mut found = found;
        let p = found.pop().unwrap();
        return Ok(Some(p));
    }
    let mut msg = to_string("Multiple daily notes found for date ");
    push_str(&mut msg, date);
    push_str(&mut msg, ": [");
    let ghost head = msg@;
    let ghost ps = strings_view(found@);
    let mut k: usize = 0;
    while k < found.len()
        invariant
            k <= found@.len(),
            ps == strings_view(found@),
            msg@ + quoted_list_from(ps, k as int) == head + quoted_list_from(ps, 0),
        decreases found@.len() - k,
    {
        let ghost before = msg@;
        if k > 0 {
            push_str(&mut msg, ", ");
        }
        msg.push('"');
        push_str(&mut msg, found[k].as_str());
        msg.push('"');
        proof {
            reveal_strlit(", ");
            assert(msg@ + quoted_list_from(ps, k + 1) =~= before + quoted_list_from(ps, k as int));
        }
        k += 1;
    }
    msg.push(']');
    proof {
        reveal_strlit("Multiple daily notes found for date ");
        reveal_strlit(": [");
        assert(quoted_list_from(ps, k as int) =~= seq![]);
        assert(msg@ =~= multiple_notes_message(date@, ps));
    }
    Err(msg)
}


// ---------------------------------------------------------------------------
// File names
// ---------------------------------------------------------------------------

/// Start of the path segment that ends at `end`: just after the last `'/'` before `end`.
pub open spec fn segment_start(p: Seq<char>, end: int) -> int
    decreases end,
{
    if end <= 0 {
        0
    } else if p[end - 1] == '/' {
        end
    } else {
        segment_start(p, end - 1)
    }
}

pub proof fn lemma_segment_start(p: Seq<char>, end: int)
    requires
        0 <= end <= p.len(),
    ensures
        0 <= segment_start(p, end) <= end,
        segment_start(p, end) > 0 ==> p[segment_start(p, end) - 1] == '/',
        forall|k: int| segment_start(p, end) <= k < end ==> p[k] != '/',
    decreases end,
{
    if end > 0 && p[end - 1] != '/' {
        lemma_segment_start(p, end - 1);
    }
}

/// The last component of `p[..end]` (`Path::file_name`): trailing slashes and `.`
/// components are skipped; nothing when no component is left or the last one is `..`.
pub open spec fn file_name_in(p: Seq<char>, end: int) -> Option<Seq<char>>
    decreases end,
{
    if end <= 0 || end > p.len() {
        None
    } else if p[end - 1] == '/' {
        file_name_in(p, end - 1)
    } else {
        let s = segment_start(p, end);
        let seg = p.subrange(s, end);
        if seg == seq!['.'] {
            proof {
                lemma_segment_start(p, end);
            }
            file_name_in(p, s)
        } else if seg == seq!['.', '.'] {
            None
        } else {
            Some(seg)
        }
    }
}

/// The file name shown for a note path: its last component, else the whole path.
pub open spec fn note_file_name(p: Seq<char>) -> Seq<char> {
    match file_name_in(p, p.len() as int) {
        Some(n) => n,
        None => p,
    }
}

/// The file name of a note path (see `note_file_name`).
pub fn file_name_of(path: &str) -> (r: String)
    ensures
        r@ == note_file_name(path@),
{
    match file_name(path) {
        Some(n) => n,
        None => to_string(path),
    }
}


// ---------------------------------------------------------------------------
// Requests and responses
// ---------------------------------------------------------------------------

/// Parameters for the get_daily_note operation
pub struct GetDailyNoteRequest {
    /// Path to vault (CLI only - not used in HTTP/MCP)
    pub vault_path: Option<String>,
    /// Date in YYYY-MM-DD format
    pub date: String,
}

/// Response from the get_daily_note operation
pub struct GetDailyNoteResponse {
    /// Whether the daily note was found
    pub found: bool,
    /// Date in YYYY-MM-DD format
    pub date: String,
    /// File path relative to vault root (only present if found=true)
    pub file_path: Option<String>,
    /// File name (only present if found=true)
    pub file_name: Option<String>,
    /// Note content (only present if found=true)
    pub content: Option<String>,
}

/// Parameters for the search_daily_notes operation
pub struct SearchDailyNotesRequest {
    /// Path to vault (CLI only - not used in HTTP/MCP)
    pub vault_path: Option<String>,
    /// Start date in YYYY-MM-DD format (inclusive)
    pub start_date: Option<String>,
    /// End date in YYYY-MM-DD format (inclusive)
    pub end_date: Option<String>,
    /// Maximum number of notes to return
    pub limit: Option<usize>,
    /// Sort order: asc (oldest first) or desc (newest first)
    pub sort: Option<String>,
    /// Whether to include note content in results
    pub include_content: Option<bool>,
}

/// Response from the search_daily_notes operation
pub struct SearchDailyNotesResponse {
    /// Daily notes metadata (or full notes if include_content=true)
    pub notes: Vec<DailyNoteResult>,
    /// Total number of notes found
    pub total_count: usize,
    /// Total number of dates in the requested range
    pub dates_searched: usize,
}

/// A daily note result (metadata with optional content)
pub struct DailyNoteResult {
    /// Date in YYYY-MM-DD format
    pub date: String,
    /// File path relative to vault root
    pub file_path: String,
    /// File name
    pub file_name: String,
    /// Note content (only present if include_content=true)
    pub content: Option<String>,
    /// Error message if reading failed (only present if include_content=true and read failed)
    pub error: Option<String>,
}

pub open spec fn opt_str(o: Option<String>) -> Option<Seq<char>> {
    match o {
        Some(s) => Some(s@),
        None => None,
    }
}

// ---------------------------------------------------------------------------
// One date
// ---------------------------------------------------------------------------

/// `Date must be in YYYY-MM-DD format`.
pub open spec fn bad_date_message() -> Seq<char> {
    seq![
        'D', 'a', 't', 'e', ' ', 'm', 'u', 's', 't', ' ', 'b', 'e', ' ', 'i', 'n', ' ', 'Y', 'Y', 'Y',
        'Y', '-', 'M', 'M', '-', 'D', 'D', ' ', 'f', 'o', 'r', 'm', 'a', 't',
    ]
}

/// Checks the date of a daily-note request.
pub fn check_daily_note_request(request: &GetDailyNoteRequest) -> (r: Result<(), CapabilityError>)
    ensures
        r is Ok <==> is_valid_date(request.date@),
        r matches Err(e) ==> e.code == INVALID_PARAMS && e.message@ == bad_date_message(),
{
    if !validate_date(request.date.as_str()) {
        proof {
            reveal_strlit("Date must be in YYYY-MM-DD format");
        }
        let e = invalid_params("Date must be in YYYY-MM-DD format");
        assert(e.message@ =~= bad_date_message());
        return Err(e);
    }
    Ok(())
}

/// The answer to a daily-note request, given the note's path (when the date has one) and
/// the outcome of reading it (its content when the read succeeded).
pub fn daily_note_response(date: String, path: Option<String>, read: Option<Option<String>>) -> (r:
    GetDailyNoteResponse)
    ensures
        r.date@ == date@,
        r.found == (path is Some && read is Some),
        r.found ==> opt_str(r.file_path) == opt_str(path) && opt_str(r.file_name) == Some(
            note_file_name(path.unwrap()@),
        ) && opt_str(r.content) == opt_str(read.unwrap()),
        !r.found ==> r.file_path is None && r.file_name is None && r.content is None,
{
    match (path, read) {
        (Some(p), Some(content)) => {
            let name = file_name_of(p.as_str());
            GetDailyNoteResponse {
                found: true,
                date,
                file_path: Some(p),
                file_name: Some(name),
                content,
            }
        },
        _ => GetDailyNoteResponse {
            found: false,
            date,
            file_path: None,
            file_name: None,
            content: None,
        },
    }
}


// ---------------------------------------------------------------------------
// Date-range searches
// ---------------------------------------------------------------------------

/// What a search over a range of dates looks at, and how it reports.
pub struct DailySearchPlan {
    /// The dates searched, oldest first.
    pub dates: Vec<String>,
    /// Newest first.
    pub sort_desc: bool,
    /// Most notes reported.
    pub limit: usize,
    /// Whether the notes' content is read.
    pub include_content: bool,
}

/// The start of a search that names no start date: the 30th date counted back from the end
/// (in the dates from 2000-01-01 to the end), or the end itself.
pub open spec fn default_start(end: Seq<char>) -> Seq<char> {
    if spec_date_range(end, end).len() == 0 {
        end
    } else {
        let all = spec_date_range(
            seq!['2', '0', '0', '0', '-', '0', '1', '-', '0', '1'],
            end,
        );
        let idx = if all.len() >= 30 {
            all.len() - 30
        } else {
            0
        };
        if idx < all.len() {
            all[idx]
        } else {
            end
        }
    }
}

pub open spec fn is_asc(sort: Option<String>) -> bool {
    sort matches Some(s) && s@ == seq!['a', 's', 'c']
}

/// The error messages of a search request, in the order they are checked.
pub open spec fn bad_start_message() -> Seq<char> {
    seq![
        's', 't', 'a', 'r', 't', '_', 'd', 'a', 't', 'e', ' ', 'm', 'u', 's', 't', ' ', 'b', 'e', ' ',
        'i', 'n', ' ', 'Y', 'Y', 'Y', 'Y', '-', 'M', 'M', '-', 'D', 'D', ' ', 'f', 'o', 'r', 'm', 'a',
        't',
    ]
}

pub open spec fn bad_end_message() -> Seq<char> {
    seq![
        'e', 'n', 'd', '_', 'd', 'a', 't', 'e', ' ', 'm', 'u', 's', 't', ' ', 'b', 'e', ' ', 'i', 'n',
        ' ', 'Y', 'Y', 'Y', 'Y', '-', 'M', 'M', '-', 'D', 'D', ' ', 'f', 'o', 'r', 'm', 'a', 't',
    ]
}

pub open spec fn bad_range_message() -> Seq<char> {
    seq![
        'I', 'n', 'v', 'a', 'l', 'i', 'd', ' ', 'd', 'a', 't', 'e', ' ', 'r', 'a', 'n', 'g', 'e', ':',
        ' ', 's', 't', 'a', 'r', 't', '_', 'd', 'a', 't', 'e', ' ', 'm', 'u', 's', 't', ' ', 'b', 'e',
        ' ', '<', '=', ' ', 'e', 'n', 'd', '_', 'd', 'a', 't', 'e',
    ]
}

pub open spec fn long_range_message() -> Seq<char> {
    seq![
        'D', 'a', 't', 'e', ' ', 'r', 'a', 'n', 'g', 'e', ' ', 'l', 'i', 'm', 'i', 't', 'e', 'd', ' ',
        't', 'o', ' ', '3', '6', '5', ' ', 'd', 'a', 'y', 's',
    ]
}

/// The outcome of planning `request` on the day `today`: the range's end defaults to today
/// and its start to `default_start`; both must be valid, the start not after the end, and
/// the range at most 365 days; newest first unless the sort is `asc`; at most 100 notes
/// unless a limit is given.
pub open spec fn plan_outcome(
    request: &SearchDailyNotesRequest,
    today: Seq<char>,
    r: Result<DailySearchPlan, CapabilityError>,
) -> bool {
    let end = match request.end_date {
        Some(e) => e@,
        None => today,
    };
    let start = match request.start_date {
        Some(s) => s@,
        None => default_start(end),
    };
    let dates = spec_date_range(start, end);
    match r {
        Ok(plan) => {
            &&& is_valid_date(start) && is_valid_date(end)
            &&& 1 <= dates.len() <= 365
            &&& strings_view(plan.dates@) == dates
            &&& plan.sort_desc == !is_asc(request.sort)
            &&& plan.limit == match request.limit {
                Some(l) => l,
                None => 100,
            }
            &&& plan.include_content == match request.include_content {
                Some(b) => b,
                None => false,
            }
        },
        Err(e) => {
            &&& e.code == INVALID_PARAMS
            &&& if !is_valid_date(start) {
                e.message@ == bad_start_message()
            } else if !is_valid_date(end) {
                e.message@ == bad_end_message()
            } else if dates.len() == 0 {
                e.message@ == bad_range_message()
            } else {
                dates.len() > 365 && e.message@ == long_range_message()
            }
        },
    }
}

/// Plans a search over a range of dates on the day `today` (see `plan_outcome`).
pub fn plan_daily_search(request: &SearchDailyNotesRequest, today: &str) -> (r: Result<
    DailySearchPlan,
    CapabilityError,
>)
    ensures
        plan_outcome(request, today@, r),
{
    let end_date = match &request.end_date {
        Some(e) => e.clone(),
        None => to_string(today),
    };
    let start_date = match &request.start_date {
        Some(s) => s.clone(),
        None => {
            let dates = date_range(end_date.as_str(), end_date.as_str());
            if dates.len() == 0 {
                end_date.clone()
            } else {
                let all = date_range("2000-01-01", end_date.as_str());
                proof {
                    reveal_strlit("2000-01-01");
                    assert("2000-01-01"@ =~= seq!['2', '0', '0', '0', '-', '0', '1', '-', '0', '1']);
                }
                let idx = all.len().saturating_sub(30);
                if idx < all.len() {
                    all[idx].clone()
                } else {
                    end_date.clone()
                }
            }
        },
    };
    proof {
        reveal_strlit("start_date must be in YYYY-MM-DD format");
        reveal_strlit("end_date must be in YYYY-MM-DD format");
        reveal_strlit("Invalid date range: start_date must be <= end_date");
        reveal_strlit("Date range limited to 365 days");
    }
    if !validate_date(start_date.as_str()) {
        let e = invalid_params("start_date must be in YYYY-MM-DD format");
        assert(e.message@ =~= bad_start_message());
        return Err(e);
    }
    if !validate_date(end_date.as_str()) {
        let e = invalid_params("end_date must be in YYYY-MM-DD format");
        assert(e.message@ =~= bad_end_message());
        return Err(e);
    }
    let dates = date_range(start_date.as_str(), end_date.as_str());
    if dates.len() == 0 {
        let e = invalid_params("Invalid date range: start_date must be <= end_date");
        assert(e.message@ =~= bad_range_message());
        return Err(e);
    }
    if dates.len() > 365 {
        let e = invalid_params("Date range limited to 365 days");
        assert(e.message@ =~= long_range_message());
        return Err(e);
    }
    let sort_desc = match &request.sort {
        Some(s) => {
            let v = chars_of(s.as_str());
            let asc = v.len() == 3 && v[0] == 'a' && v[1] == 's' && v[2] == 'c';
            proof {
                if asc {
                    assert(v@ =~= seq!['a', 's', 'c']);
                }
            }
            !asc
        },
        None => true,
    };
    let limit = match request.limit {
        Some(l) => l,
        None => 100,
    };
    let include_content = match request.include_content {
        Some(b) => b,
        None => false,
    };
    Ok(DailySearchPlan { dates, sort_desc, limit, include_content })
}

/// Plans a search over a range of dates today: what `plan_daily_search` states, for the
/// current date.
pub fn plan_daily_search_today(request: &SearchDailyNotesRequest) -> (r: Result<
    DailySearchPlan,
    CapabilityError,
>)
    ensures
        exists|secs: u64| plan_outcome(request, #[trigger] date_of_day((secs / 86400) as int), r),
{
    let t = today();
    plan_daily_search(request, t.as_str())
}


/// `(date, path)` of the dates from `k` on that have a note, in date order.
pub open spec fn found_notes(dates: Seq<String>, paths: Seq<Option<String>>, k: int) -> Seq<
    (Seq<char>, Seq<char>),
>
    decreases dates.len() - k,
{
    if k < 0 || k >= dates.len() {
        seq![]
    } else {
        let rest = found_notes(dates, paths, k + 1);
        match paths[k] {
            Some(p) => seq![(dates[k]@, p@)] + rest,
            None => rest,
        }
    }
}

/// `n` reports the note `f` without content.
pub open spec fn note_is(n: DailyNoteResult, f: (Seq<char>, Seq<char>)) -> bool {
    &&& n.date@ == f.0
    &&& n.file_path@ == f.1
    &&& n.file_name@ == note_file_name(f.1)
    &&& n.content is None
    &&& n.error is None
}

/// Note `a` is listed before note `b`: an earlier date, or a later one when `desc`.
pub open spec fn date_before(a: (Seq<char>, Seq<char>), b: (Seq<char>, Seq<char>), desc: bool) -> bool {
    if desc {
        lex_lt(b.0, a.0)
    } else {
        lex_lt(a.0, b.0)
    }
}

/// The first position from `k` on whose note `x` is listed before.
pub open spec fn first_date_after(s: Seq<(Seq<char>, Seq<char>)>, x: (Seq<char>, Seq<char>), desc: bool, k: int) -> int
    decreases s.len() - k,
{
    if k < 0 || k >= s.len() {
        s.len() as int
    } else if date_before(x, s[k], desc) {
        k
    } else {
        first_date_after(s, x, desc, k + 1)
    }
}

/// The notes sorted by date (newest first when `desc`), notes of equal date kept in order.
pub open spec fn by_date(s: Seq<(Seq<char>, Seq<char>)>, desc: bool) -> Seq<(Seq<char>, Seq<char>)>
    decreases s.len(),
{
    if s.len() == 0 {
        s
    } else {
        let sorted = by_date(s.drop_last(), desc);
        sorted.insert(first_date_after(sorted, s.last(), desc, 0), s.last())
    }
}

fn date_goes_before(a: &Vec<char>, b: &Vec<char>, desc: bool) -> (r: bool)
    ensures
        r == if desc {
            lex_lt(b@, a@)
        } else {
            lex_lt(a@, b@)
        },
{
    if desc {
        lex_less(b, a)
    } else {
        lex_less(a, b)
    }
}

/// The notes that a search reports, given for each searched date the path of its note (if
/// any): sorted by date, oldest first or newest first when `sort_desc`, at most `limit` of
/// them; with the number of notes found.
pub fn collect_daily_notes(
    dates: &Vec<String>,
    paths: &Vec<Option<String>>,
    sort_desc: bool,
    limit: usize,
) -> (r: (Vec<DailyNoteResult>, usize))
    requires
        dates@.len() == paths@.len(),
    ensures
        ({
            let found = found_notes(dates@, paths@, 0);
            let ordered = by_date(found, sort_desc);
            &&& r.1 == found.len()
            &&& r.0@.len() == if found.len() > limit {
                limit as int
            } else {
                found.len() as int
            }
            &&& forall|k: int| 0 <= k < r.0@.len() ==> note_is(#[trigger] r.0@[k], ordered[k])
        }),
{
    let ghost found = found_notes(dates@, paths@, 0);
    let mut notes: Vec<DailyNoteResult> = Vec::new();
    let mut count: usize = 0;
    let mut k: usize = 0;
    while k < dates.len()
        invariant
            k <= dates@.len() == paths@.len(),
            found == found_notes(dates@, paths@, 0),
            found.len() == count + found_notes(dates@, paths@, k as int).len(),
            notes@.len() == count,
            ({
                let sorted = by_date(found.take(count as int), sort_desc);
                &&& sorted.len() == count
                &&& forall|j: int| 0 <= j < count ==> note_is(#[trigger] notes@[j], sorted[j])
            }),
            forall|j: int|
                0 <= j < found_notes(dates@, paths@, k as int).len() ==> #[trigger] found_notes(
                    dates@,
                    paths@,
                    k as int,
                )[j] == found[count + j],
        decreases dates@.len() - k,
    {
        let ghost rest = found_notes(dates@, paths@, k + 1);
        match &paths[k] {
            Some(p) => {
                let ghost here = found_notes(dates@, paths@, k as int);
                assert(here == seq![(dates@[k as int]@, p@)] + rest);
                let ghost x = here[0];
                assert(x == found[count as int]);
                let ghost prev = by_date(found.take(count as int), sort_desc);
                let key = chars_of(dates[k].as_str());
                let mut q: usize = 0;
                while q < notes.len() && !date_goes_before(&key, &chars_of(notes[q].date.as_str()), sort_desc)
                    invariant
                        q <= notes@.len() == prev.len(),
                        key@ == x.0,
                        forall|j: int| 0 <= j < notes@.len() ==> note_is(#[trigger] notes@[j], prev[j]),
                        first_date_after(prev, x, sort_desc, 0) == first_date_after(prev, x, sort_desc, q as int),
                    decreases notes@.len() - q,
                {
                    assert(note_is(notes@[q as int], prev[q as int]));
                    q += 1;
                }
                proof {
                    if q < notes@.len() {
                        assert(note_is(notes@[q as int], prev[q as int]));
                    }
                }
                let name = file_name_of(p.as_str());
                let ghost before = notes@;
                notes.insert(
                    q,
                    DailyNoteResult {
                        date: dates[k].clone(),
                        file_path: p.clone(),
                        file_name: name,
                        content: None,
                        error: None,
                    },
                );
                proof {
                    let next = found.take(count + 1);
                    assert(next.drop_last() =~= found.take(count as int));
                    assert(next.last() == x);
                    let sorted = by_date(next, sort_desc);
                    assert(sorted == prev.insert(q as int, x));
                    assert forall|j: int| 0 <= j < count + 1 implies note_is(#[trigger] notes@[j], sorted[j]) by {
                        if j < q {
                            assert(notes@[j] == before[j]);
                        } else if j > q {
                            assert(notes@[j] == before[j - 1]);
                        }
                    }
                    assert forall|j: int| 0 <= j < rest.len() implies #[trigger] rest[j] == found[count + 1 + j] by {
                        assert(here[j + 1] == rest[j]);
                    }
                }
                count = notes.len();
            },
            None => {
                assert(found_notes(dates@, paths@, k as int) == rest);
            },
        }
        k += 1;
    }
    assert(found_notes(dates@, paths@, k as int).len() == 0);
    assert(found.take(count as int) =~= found);
    let total = notes.len();
    if notes.len() > limit {
        notes.truncate(limit);
    }
    (notes, total)
}

/// Notes found for dates that strictly ascend (as a date range lists them) come in that
/// order oldest first, and in the reverse order newest first.
pub proof fn law_notes_follow_the_dates(s: Seq<(Seq<char>, Seq<char>)>)
    requires
        forall|i: int, j: int| 0 <= i < j < s.len() ==> lex_lt(#[trigger] s[i].0, #[trigger] s[j].0),
    ensures
        by_date(s, false) == s,
        by_date(s, true) == s.reverse(),
    decreases s.len(),
{
    if s.len() > 0 {
        let rest = s.drop_last();
        law_notes_follow_the_dates(rest);
        let x = s.last();
        lemma_first_date_after_end(rest, x);
        assert(rest.insert(rest.len() as int, x) =~= s);
        assert(s.reverse().drop_first() =~= rest.reverse());
        lemma_lex_irrefl(x.0);
        assert(date_before(x, rest.reverse()[0], true) || rest.len() == 0) by {
            if rest.len() > 0 {
                assert(rest.reverse()[0] == rest[rest.len() - 1]);
                assert(lex_lt(s[rest.len() - 1].0, s[s.len() - 1].0));
            }
        }
        assert(rest.reverse().insert(0, x) =~= s.reverse());
    }
}

proof fn lemma_first_date_after_end(rest: Seq<(Seq<char>, Seq<char>)>, x: (Seq<char>, Seq<char>))
    requires
        forall|i: int| 0 <= i < rest.len() ==> lex_lt((#[trigger] rest[i]).0, x.0),
    ensures
        first_date_after(rest, x, false, 0) == rest.len(),
        rest.len() > 0 ==> first_date_after(rest.reverse(), x, true, 0) == 0,
{
    lemma_first_date_none(rest, x, 0);
    if rest.len() > 0 {
        assert(rest.reverse()[0] == rest[rest.len() - 1]);
    }
}

proof fn lemma_first_date_none(rest: Seq<(Seq<char>, Seq<char>)>, x: (Seq<char>, Seq<char>), k: int)
    requires
        0 <= k <= rest.len(),
        forall|i: int| 0 <= i < rest.len() ==> lex_lt((#[trigger] rest[i]).0, x.0),
    ensures
        first_date_after(rest, x, false, k) == rest.len(),
    decreases rest.len() - k,
{
    if k < rest.len() {
        lemma_lex_asym(rest[k].0, x.0);
        lemma_first_date_none(rest, x, k + 1);
    }
}

proof fn lemma_lex_asym(a: Seq<char>, b: Seq<char>)
    requires
        lex_lt(a, b),
    ensures
        !lex_lt(b, a),
{
    if lex_lt(b, a) {
        lemma_lex_trans(a, b, a);
        lemma_lex_irrefl(a);
    }
}

/// The content of each note from the batch read of the notes: the outcome for its path
/// (the last one listed for that path), content when the read succeeded, error otherwise;
/// a note whose path was not read is left as it is. Reads are `(path, success, content,
/// error)`.
pub fn attach_contents(notes: &mut Vec<DailyNoteResult>, reads: &Vec<(String, bool, Option<String>, Option<String>)>)
    ensures
        final(notes)@.len() == old(notes)@.len(),
        forall|k: int|
            0 <= k < final(notes)@.len() ==> {
                let before = #[trigger] old(notes)@[k];
                let after = final(notes)@[k];
                &&& after.date == before.date
                &&& after.file_path == before.file_path
                &&& after.file_name == before.file_name
                &&& match last_read(reads@, before.file_path@, reads@.len() as int) {
                    Some(i) => if reads@[i].1 {
                        after.content == reads@[i].2 && after.error == before.error
                    } else {
                        after.content == before.content && after.error == reads@[i].3
                    },
                    None => after.content == before.content && after.error == before.error,
                }
            },
{
    let ghost orig = notes@;
    let mut k: usize = 0;
    while k < notes.len()
        invariant
            k <= notes@.len() == orig.len(),
            forall|j: int| k <= j < notes@.len() ==> #[trigger] notes@[j] == orig[j],
            forall|j: int|
                0 <= j < k ==> {
                    let before = #[trigger] orig[j];
                    let after = notes@[j];
                    &&& after.date == before.date
                    &&& after.file_path == before.file_path
                    &&& after.file_name == before.file_name
                    &&& match last_read(reads@, before.file_path@, reads@.len() as int) {
                        Some(i) => if reads@[i].1 {
                            after.content == reads@[i].2 && after.error == before.error
                        } else {
                            after.content == before.content && after.error == reads@[i].3
                        },
                        None => after.content == before.content && after.error == before.error,
                    }
                },
        decreases notes@.len() - k,
    {
        let pv = chars_of(notes[k].file_path.as_str());
        let mut i = reads.len();
        let mut hit: Option<usize> = None;
        while i > 0 && hit.is_none()
            invariant
                i <= reads@.len(),
                pv@ == notes@[k as int].file_path@,
                hit is None ==> last_read(reads@, pv@, reads@.len() as int) == last_read(
                    reads@,
                    pv@,
                    i as int,
                ),
                hit matches Some(h) ==> last_read(reads@, pv@, reads@.len() as int) == Some(h as int)
                    && h < reads@.len(),
            decreases i,
        {
            let rv = chars_of(reads[i - 1].0.as_str());
            if chars_eq(&rv, &pv) {
                hit = Some(i - 1);
            }
            i -= 1;
        }
        proof {
            if hit is None {
                assert(last_read(reads@, pv@, i as int) is None);
            }
        }
        match hit {
            Some(h) => {
                let mut note = notes.remove(k);
                if reads[h].1 {
                    note.content = reads[h].2.clone();
                } else {
                    note.error = reads[h].3.clone();
                }
                notes.insert(k, note);
            },
            None => {},
        }
        k += 1;
    }
}

/// Index of the last read among `reads[..i]` whose path is `path`.
pub open spec fn last_read(reads: Seq<(String, bool, Option<String>, Option<String>)>, path: Seq<char>, i: int) -> Option<int>
    decreases i,
{
    if i <= 0 {
        None
    } else if reads[i - 1].0@ == path {
        Some(i - 1)
    } else {
        last_read(reads, path, i - 1)
    }
}


/// The last component of a path (`Path::file_name`), when it has one.
pub fn file_name(path: &str) -> (r: Option<String>)
    ensures
        opt_str(r) == file_name_in(path@, path@.len() as int),
{
    let v = chars_of(path);
    let mut end = v.len();
    loop
        invariant
            end <= v.len(),
            v@ == path@,
            file_name_in(v@, end as int) == file_name_in(v@, v@.len() as int),
        decreases end,
    {
        if end == 0 {
            return None;
        }
        if v[end - 1] == '/' {
            end -= 1;
        } else {
            let mut s = end;
            while s > 0 && v[s - 1] != '/'
                invariant
                    s <= end <= v.len(),
                    segment_start(v@, s as int) == segment_start(v@, end as int),
                decreases s,
            {
                s -= 1;
            }
            proof {
                lemma_segment_start(v@, end as int);
            }
            let ghost seg = v@.subrange(s as int, end as int);
            if end - s == 1 && v[s] == '.' {
                assert(seg =~= seq!['.']);
                end = s;
            } else if end - s == 2 && v[s] == '.' && v[s + 1] == '.' {
                assert(seg =~= seq!['.', '.']);
                return None;
            } else {
                proof {
                    if seg.len() == 1 {
                        assert(seg[0] == v@[s as int]);
                    }
                    if seg.len() == 2 {
                        assert(seg[0] == v@[s as int] && seg[1] == v@[s + 1]);
                    }
                }
                let mut out = String::new();
                push_range(&mut out, &v, s, end);
                assert(out@ =~= seg);
                return Some(out);
            }
        }
    }
}

} // verus!

//! Listing and reading vault files: the file tree, reading several files with per-file
//! results, and recently modified files. The file system is read by the caller, which hands
//! over what it found.
use vstd::prelude::*;

use crate::config::{excluded_by, Config};
use crate::daily_notes::{file_name, file_name_in, opt_str};
use crate::error::{error_text, invalid_params, CapabilityError, INVALID_PARAMS};
use crate::paths::{
    check_vault_file, extension_of, is_within, not_markdown_message, outside_message, relative_path, relative_to,
    within,
};
use crate::recent_files::{
    extract_updated_from_frontmatter, iso_of_unix, iso_parse, iso_slices_ok, parse_iso8601_to_unix,
    spec_updated, unix_to_iso8601,
};
use crate::order::{lemma_insert_sorted, sorted_by, strict_order};
use crate::text::{chars_of, lemma_lex_irrefl, lemma_lex_trans, lex_less, lex_lt, push_str, to_string};
use vstd::utf8::encode_utf8;

verus! {

/// Parameters for the list_files operation
pub struct ListFilesRequest {
    /// Path to scan (CLI only - not used in HTTP/MCP)
    pub path: Option<String>,
    /// Subpath within the vault to list
    pub subpath: Option<String>,
    /// Maximum depth to traverse
    pub max_depth: Option<usize>,
    /// Include file sizes in output
    pub include_sizes: Option<bool>,
}

/// A node in the file tree
#[derive(Debug)]
pub struct FileTreeNode {
    pub name: String,
    pub path: String,
    pub is_directory: bool,
    pub size_bytes: Option<u64>,
    pub children: Vec<FileTreeNode>,
}

/// Response from the list_files operation
#[derive(Debug)]
pub struct ListFilesResponse {
    /// Visual tree representation with indented structure
    pub visual_tree: String,
    pub total_files: usize,
    pub total_directories: usize,
}

/// A file-system entry as it was read: its full path, whether it is a directory, its size
/// in bytes, and, for a directory, its entries in the order they were listed (or the error
/// that listing it gave).
#[derive(Debug)]
pub struct FsEntry {
    pub path: String,
    pub is_dir: bool,
    pub size: u64,
    pub entries: Result<Vec<FsEntry>, String>,
}

/// A file tree node as a value.
pub struct TreeV {
    pub name: Seq<char>,
    pub path: Seq<char>,
    pub is_directory: bool,
    pub size_bytes: Option<u64>,
    pub children: Seq<TreeV>,
}

pub open spec fn tree_view(n: FileTreeNode) -> TreeV
    decreases n, 0int,
{
    TreeV {
        name: n.name@,
        path: n.path@,
        is_directory: n.is_directory,
        size_bytes: n.size_bytes,
        children: tree_views(n.children@, 0),
    }
}

pub open spec fn tree_views(s: Seq<FileTreeNode>, k: int) -> Seq<TreeV>
    decreases s, s.len() - k,
{
    if k < 0 || k >= s.len() {
        seq![]
    } else {
        seq![tree_view(s[k])] + tree_views(s, k + 1)
    }
}

pub proof fn lemma_tree_views(s: Seq<FileTreeNode>, k: int)
    requires
        0 <= k <= s.len(),
    ensures
        tree_views(s, k) == Seq::new((s.len() - k) as nat, |i: int| tree_view(s[k + i])),
    decreases s.len() - k,
{
    if k < s.len() {
        lemma_tree_views(s, k + 1);
    }
    assert(tree_views(s, k) =~= Seq::new((s.len() - k) as nat, |i: int| tree_view(s[k + i])));
}

/// The number of entries in the tree read at `e`.
pub open spec fn entry_count(e: FsEntry) -> nat
    decreases e, 0int,
{
    1 + match e.entries {
        Ok(v) => entries_count(v@, v@.len() as int),
        Err(_) => 0,
    }
}

/// The number of entries in the trees read at the first `n` of `s`.
pub open spec fn entries_count(s: Seq<FsEntry>, n: int) -> nat
    decreases s, n,
{
    if n <= 0 || n > s.len() {
        0
    } else {
        entries_count(s, n - 1) + entry_count(s[n - 1])
    }
}

/// The name shown for a path: its last component, or nothing.
pub open spec fn entry_name(path: Seq<char>) -> Seq<char> {
    match file_name_in(path, path.len() as int) {
        Some(n) => n,
        None => seq![],
    }
}

/// Entries whose name starts with a dot are hidden.
pub open spec fn is_hidden(path: Seq<char>) -> bool {
    match file_name_in(path, path.len() as int) {
        Some(n) => n.len() > 0 && n[0] == '.',
        None => false,
    }
}

/// Directories come before files; within each, names ascend.
pub open spec fn tree_before(a: TreeV, b: TreeV) -> bool {
    ||| (a.is_directory && !b.is_directory)
    ||| (a.is_directory == b.is_directory && lex_lt(a.name, b.name))
}

/// The first position from `k` on whose node `x` goes before.
pub open spec fn first_after(s: Seq<TreeV>, x: TreeV, k: int) -> int
    decreases s.len() - k,
{
    if k < 0 || k >= s.len() {
        s.len() as int
    } else if tree_before(x, s[k]) {
        k
    } else {
        first_after(s, x, k + 1)
    }
}

/// `x` put into the sorted `s` after every node it does not go before.
pub open spec fn insert_sorted(s: Seq<TreeV>, x: TreeV) -> Seq<TreeV> {
    s.insert(first_after(s, x, 0), x)
}

/// The nodes sorted directories first, then by name, keeping the order of equal ones.
pub open spec fn sort_tree(s: Seq<TreeV>) -> Seq<TreeV>
    decreases s.len(),
{
    if s.len() == 0 {
        s
    } else {
        insert_sorted(sort_tree(s.drop_last()), s.last())
    }
}

/// The leaf for `e`: a node without children, its size shown for a file when `sizes`.
pub open spec fn leaf_of(e: FsEntry, base: Seq<char>, sizes: bool) -> TreeV {
    TreeV {
        name: entry_name(e.path@),
        path: relative_path(base, e.path@),
        is_directory: e.is_dir,
        size_bytes: if !e.is_dir && sizes {
            Some(e.size)
        } else {
            None
        },
        children: seq![],
    }
}

/// The tree built at `e` (depth `depth`) with its numbers of files and directories, or the
/// error that drops it: an excluded path (at any depth), or a directory that could not be
/// listed. At the depth limit an entry that is not excluded is a leaf, counted as a file when
/// it is one.
pub open spec fn tree_spec(
    e: FsEntry,
    base: Seq<char>,
    patterns: Seq<String>,
    depth: int,
    max: Option<usize>,
    sizes: bool,
) -> Result<(TreeV, int, int), Seq<char>>
    decreases e, 0int,
{
    if excluded_by(patterns, e.path@) {
        Err(excluded_message())
    } else if max matches Some(m) && depth >= m {
        Ok((leaf_of(e, base, sizes), if e.is_dir { 0int } else { 1int }, 0int))
    } else if !e.is_dir {
        Ok((leaf_of(e, base, sizes), 1int, 0int))
    } else {
        match e.entries {
            Err(msg) => Err(msg@),
            Ok(v) => {
                let kids = kept_entries(v@, v@.len() as int, base, patterns, depth + 1, max, sizes);
                Ok(
                    (
                        TreeV {
                            name: entry_name(e.path@),
                            path: relative_path(base, e.path@),
                            is_directory: true,
                            size_bytes: None,
                            children: sort_tree(kids.0),
                        },
                        kids.1,
                        1 + kids.2,
                    ),
                )
            },
        }
    }
}

/// The trees of the first `n` entries of a directory that are kept (not hidden, not
/// dropped), in listing order, with their summed numbers of files and directories.
pub open spec fn kept_entries(
    s: Seq<FsEntry>,
    n: int,
    base: Seq<char>,
    patterns: Seq<String>,
    depth: int,
    max: Option<usize>,
    sizes: bool,
) -> (Seq<TreeV>, int, int)
    decreases s, n,
{
    if n <= 0 || n > s.len() {
        (seq![], 0, 0)
    } else {
        let rest = kept_entries(s, n - 1, base, patterns, depth, max, sizes);
        if is_hidden(s[n - 1].path@) {
            rest
        } else {
            match tree_spec(s[n - 1], base, patterns, depth, max, sizes) {
                Ok(t) => (rest.0.push(t.0), rest.1 + t.1, rest.2 + t.2),
                Err(_) => rest,
            }
        }
    }
}

pub open spec fn excluded_message() -> Seq<char> {
    seq![
        'P', 'a', 't', 'h', ' ', 'e', 'x', 'c', 'l', 'u', 'd', 'e', 'd', ' ', 'b', 'y', ' ', 'c',
        'o', 'n', 'f', 'i', 'g', 'u', 'r', 'a', 't', 'i', 'o', 'n',
    ]
}


/// A tree built at `e` counts at most the entries read there.
pub proof fn lemma_tree_counts(
    e: FsEntry,
    base: Seq<char>,
    patterns: Seq<String>,
    depth: int,
    max: Option<usize>,
    sizes: bool,
)
    ensures
        tree_spec(e, base, patterns, depth, max, sizes) matches Ok(t) ==> 0 <= t.1 && 0 <= t.2
            && t.1 + t.2 <= entry_count(e),
    decreases e, 0int,
{
    if !excluded_by(patterns, e.path@) && !(max matches Some(m) && depth >= m) && e.is_dir {
        if let Ok(v) = e.entries {
            lemma_kept_counts(v@, v@.len() as int, base, patterns, depth + 1, max, sizes);
        }
    }
}

pub proof fn lemma_kept_counts(
    s: Seq<FsEntry>,
    n: int,
    base: Seq<char>,
    patterns: Seq<String>,
    depth: int,
    max: Option<usize>,
    sizes: bool,
)
    ensures
        ({
            let k = kept_entries(s, n, base, patterns, depth, max, sizes);
            0 <= k.1 && 0 <= k.2 && k.1 + k.2 <= entries_count(s, n)
        }),
    decreases s, n,
{
    if 0 < n <= s.len() {
        lemma_kept_counts(s, n - 1, base, patterns, depth, max, sizes);
        lemma_tree_counts(s[n - 1], base, patterns, depth, max, sizes);
    }
}

/// Each entry's tree is part of the count of the entries around it.
pub proof fn lemma_entries_count_part(s: Seq<FsEntry>, n: int, i: int)
    requires
        0 <= i < n <= s.len(),
    ensures
        entry_count(s[i]) + entries_count(s, i) <= entries_count(s, n),
    decreases n,
{
    if i < n - 1 {
        lemma_entries_count_part(s, n - 1, i);
    }
}

fn is_hidden_path(path: &str) -> (r: bool)
    ensures
        r == is_hidden(path@),
{
    match file_name(path) {
        Some(n) => {
            let v = chars_of(n.as_str());
            v.len() > 0 && v[0] == '.'
        },
        None => false,
    }
}

fn node_before(a: &FileTreeNode, b: &FileTreeNode) -> (r: bool)
    ensures
        r == tree_before(tree_view(*a), tree_view(*b)),
{
    if a.is_directory && !b.is_directory {
        return true;
    }
    if a.is_directory != b.is_directory {
        return false;
    }
    lex_less(&chars_of(a.name.as_str()), &chars_of(b.name.as_str()))
}

/// Puts `node` among the sorted `children` after every node it does not go before.
fn insert_node(children: &mut Vec<FileTreeNode>, node: FileTreeNode)
    ensures
        tree_views(final(children)@, 0) == insert_sorted(tree_views(old(children)@, 0), tree_view(node)),
{
    let ghost old_views = tree_views(children@, 0);
    let ghost x = tree_view(node);
    proof {
        lemma_tree_views(children@, 0);
    }
    let mut p: usize = 0;
    while p < children.len() && !node_before(&node, &children[p])
        invariant
            p <= children@.len(),
            old_views == tree_views(children@, 0),
            old_views.len() == children@.len(),
            forall|i: int| 0 <= i < children@.len() ==> old_views[i] == tree_view(#[trigger] children@[i]),
            x == tree_view(node),
            first_after(old_views, x, 0) == first_after(old_views, x, p as int),
        decreases children@.len() - p,
    {
        p += 1;
    }
    let ghost before = children@;
    children.insert(p, node);
    proof {
        lemma_tree_views(children@, 0);
        assert(tree_views(children@, 0) =~= old_views.insert(p as int, x));
    }
}

/// Builds the file tree at `entry` (depth `current_depth`), with its numbers of files and
/// directories: hidden entries are left out, excluded paths and directories that could not
/// be listed are dropped (excluded paths at any depth, the depth limit included), directories
/// are cut off at `max_depth`, and the children of a
/// directory come directories first, then by name.
pub fn build_file_tree(
    entry: &FsEntry,
    base_path: &str,
    config: &Config,
    current_depth: usize,
    max_depth: Option<usize>,
    include_sizes: bool,
) -> (r: Result<(FileTreeNode, usize, usize), String>)
    requires
        current_depth + entry_count(*entry) <= usize::MAX,
    ensures
        match r {
            Ok(t) => tree_spec(
                *entry,
                base_path@,
                config.exclude_paths@,
                current_depth as int,
                max_depth,
                include_sizes,
            ) == Ok::<(TreeV, int, int), Seq<char>>((tree_view(t.0), t.1 as int, t.2 as int)),
            Err(m) => tree_spec(
                *entry,
                base_path@,
                config.exclude_paths@,
                current_depth as int,
                max_depth,
                include_sizes,
            ) == Err::<(TreeV, int, int), Seq<char>>(m@),
        },
    decreases *entry,
{
    let ghost base = base_path@;
    let ghost patterns = config.exclude_paths@;
    let name = match file_name(entry.path.as_str()) {
        Some(n) => n,
        None => String::new(),
    };
    let rel = relative_to(base_path, entry.path.as_str());
    let at_limit = match max_depth {
        Some(max) => current_depth >= max,
        None => false,
    };
    if config.should_exclude(entry.path.as_str()) {
        return Err(excluded_text());
    }
    if at_limit || !entry.is_dir {
        let size_bytes = if !entry.is_dir && include_sizes { Some(entry.size) } else { None };
        let node = FileTreeNode { name, path: rel, is_directory: entry.is_dir, size_bytes, children: Vec::new() };
        proof {
            lemma_tree_views(node.children@, 0);
            assert(tree_view(node).children =~= seq![]);
        }
        return Ok((node, if entry.is_dir { 0 } else { 1 }, 0));
    }
    match &entry.entries {
        Err(msg) => Err(msg.clone()),
        Ok(v) => {
            let mut children: Vec<FileTreeNode> = Vec::new();
            let mut files: usize = 0;
            let mut dirs: usize = 1;
            let mut i: usize = 0;
            proof {
                lemma_tree_views(children@, 0);
            }
            while i < v.len()
                invariant
                    i <= v@.len(),
                    entry.entries == Ok::<Vec<FsEntry>, String>(*v),
                    current_depth + entry_count(*entry) <= usize::MAX,
                    entry_count(*entry) == 1 + entries_count(v@, v@.len() as int),
                    base == base_path@,
                    patterns == config.exclude_paths@,
                    ({
                        let k = kept_entries(
                            v@,
                            i as int,
                            base,
                            patterns,
                            current_depth + 1,
                            max_depth,
                            include_sizes,
                        );
                        &&& tree_views(children@, 0) == sort_tree(k.0)
                        &&& files == k.1
                        &&& dirs == 1 + k.2
                    }),
                decreases v@.len() - i,
            {
                let ghost k = kept_entries(v@, i as int, base, patterns, current_depth + 1, max_depth, include_sizes);
                proof {
                    lemma_kept_counts(v@, i as int, base, patterns, current_depth + 1, max_depth, include_sizes);
                    lemma_entries_count_part(v@, v@.len() as int, i as int);
                    lemma_tree_counts(v@[i as int], base, patterns, current_depth + 1, max_depth, include_sizes);
                }
                let child = &v[i];
                if !is_hidden_path(child.path.as_str()) {
                    match build_file_tree(child, base_path, config, current_depth + 1, max_depth, include_sizes) {
                        Ok((node, f, d)) => {
                            let ghost t = (tree_view(node), f as int, d as int);
                            insert_node(&mut children, node);
                            files = files + f;
                            dirs = dirs + d;
                            proof {
                                assert(k.0.push(t.0).drop_last() =~= k.0);
                            }
                        },
                        Err(_) => {},
                    }
                }
                i += 1;
            }
            let node = FileTreeNode { name, path: rel, is_directory: true, size_bytes: None, children };
            Ok((node, files, dirs))
        },
    }
}

fn excluded_text() -> (r: String)
    ensures
        r@ == excluded_message(),
{
    let r = to_string("Path excluded by configuration");
    proof {
        reveal_strlit("Path excluded by configuration");
    }
    assert(r@ =~= excluded_message());
    r
}


// ---------------------------------------------------------------------------
// Reading files
// ---------------------------------------------------------------------------

/// Result for a single file read operation
#[derive(Debug)]
pub struct ReadFileResult {
    /// File path relative to vault root
    pub file_path: String,
    /// File name only
    pub file_name: String,
    /// Whether this file was successfully read
    pub success: bool,
    /// File content (only present if success=true)
    pub content: Option<String>,
    /// Error message (only present if success=false)
    pub error: Option<String>,
}

/// Response from the read_files operation
#[derive(Debug)]
pub struct ReadFilesResponse {
    /// Successfully read files
    pub files: Vec<ReadFileResult>,
    /// Total number of files requested
    pub total_requested: usize,
    /// Number of files successfully read
    pub success_count: usize,
    /// Number of files that failed
    pub failure_count: usize,
}

/// Parameters for the read_files operation
pub struct ReadFilesRequest {
    /// Vault path (CLI only - not used in HTTP/MCP)
    pub vault_path: Option<String>,
    /// File paths relative to vault root
    pub file_paths: Vec<String>,
    /// Continue on error (return partial results)
    pub continue_on_error: Option<bool>,
}

/// The file name of a path (`Path::file_name`), or nothing.
pub fn extract_file_name(file_path: &str) -> (r: String)
    ensures
        r@ == entry_name(file_path@),
{
    match file_name(file_path) {
        Some(n) => n,
        None => String::new(),
    }
}

pub open spec fn not_found_message(requested: Seq<char>) -> Seq<char> {
    seq!['F', 'i', 'l', 'e', ' ', 'n', 'o', 't', ' ', 'f', 'o', 'u', 'n', 'd', ':', ' '] + requested
}

pub open spec fn empty_paths_message() -> Seq<char> {
    seq![
        'f', 'i', 'l', 'e', '_', 'p', 'a', 't', 'h', 's', ' ', 'c', 'a', 'n', 'n', 'o', 't', ' ',
        'b', 'e', ' ', 'e', 'm', 'p', 't', 'y',
    ]
}

/// What checking a requested file gives: not found when it could not be resolved, else the
/// vault checks (inside the vault, markdown).
pub open spec fn target_check(base: Seq<char>, full: Option<Seq<char>>, requested: Seq<char>) -> Option<
    (i32, Seq<char>),
> {
    match full {
        None => Some((INVALID_PARAMS, not_found_message(requested))),
        Some(f) => if !within(base, f) {
            Some((INVALID_PARAMS, outside_message(requested)))
        } else if extension_of(f) != Some(seq!['m', 'd']) {
            Some((INVALID_PARAMS, not_markdown_message(requested)))
        } else {
            None
        },
    }
}

pub open spec fn is_error(r: Result<(), CapabilityError>, e: Option<(i32, Seq<char>)>) -> bool {
    match e {
        None => r is Ok,
        Some(x) => r matches Err(err) && err.code == x.0 && err.message@ == x.1,
    }
}

/// Checks a requested file, given what it resolved to (`None`: it could not be resolved).
pub fn check_read_target(canonical_base: &str, canonical_full: &Option<String>, requested: &str) -> (r:
    Result<(), CapabilityError>)
    ensures
        is_error(r, target_check(canonical_base@, opt_str(*canonical_full), requested@)),
{
    match canonical_full {
        None => {
            let mut m = to_string("File not found: ");
            push_str(&mut m, requested);
            proof {
                reveal_strlit("File not found: ");
            }
            let e = invalid_params(m.as_str());
            assert(e.message@ =~= not_found_message(requested@));
            Err(e)
        },
        Some(full) => check_vault_file(canonical_base, full.as_str(), requested),
    }
}

/// The first failing check among the requested files from `k` on.
pub open spec fn first_failure(
    base: Seq<char>,
    resolved: Seq<Option<String>>,
    paths: Seq<String>,
    k: int,
) -> Option<(i32, Seq<char>)>
    decreases paths.len() - k,
{
    if k < 0 || k >= paths.len() {
        None
    } else {
        match target_check(base, opt_str(resolved[k]), paths[k]@) {
            Some(e) => Some(e),
            None => first_failure(base, resolved, paths, k + 1),
        }
    }
}

/// What checking a whole request up front gives: nothing when errors are to be collected per
/// file, else an error for an empty request or for the first file that fails its checks.
pub open spec fn request_check(base: Seq<char>, request: ReadFilesRequest, resolved: Seq<Option<String>>) -> Option<
    (i32, Seq<char>),
> {
    if request.continue_on_error == Some(true) {
        None
    } else if request.file_paths@.len() == 0 {
        Some((INVALID_PARAMS, empty_paths_message()))
    } else {
        first_failure(base, resolved, request.file_paths@, 0)
    }
}

/// Checks a read request before any file is read, given what each requested path resolved
/// to: unless errors are to be collected per file, the request must name a file, and every
/// file must resolve to a markdown file inside the vault.
pub fn validate_read_request(canonical_base: &str, request: &ReadFilesRequest, resolved: &Vec<Option<String>>) -> (r:
    Result<(), CapabilityError>)
    requires
        resolved@.len() == request.file_paths@.len(),
    ensures
        is_error(r, request_check(canonical_base@, *request, resolved@)),
{
    let continue_on_error = match request.continue_on_error {
        Some(b) => b,
        None => false,
    };
    if continue_on_error {
        return Ok(());
    }
    if request.file_paths.len() == 0 {
        let e = invalid_params("file_paths cannot be empty");
        proof {
            reveal_strlit("file_paths cannot be empty");
        }
        assert(e.message@ =~= empty_paths_message());
        return Err(e);
    }
    let mut k: usize = 0;
    while k < request.file_paths.len()
        invariant
            k <= request.file_paths@.len() == resolved@.len(),
            request.continue_on_error != Some(true),
            request.file_paths@.len() != 0,
            first_failure(canonical_base@, resolved@, request.file_paths@, 0) == first_failure(
                canonical_base@,
                resolved@,
                request.file_paths@,
                k as int,
            ),
        decreases request.file_paths@.len() - k,
    {
        let c = check_read_target(canonical_base, &resolved[k], request.file_paths[k].as_str());
        if c.is_err() {
            assert(first_failure(canonical_base@, resolved@, request.file_paths@, k as int) == target_check(
                canonical_base@,
                opt_str(resolved@[k as int]),
                request.file_paths@[k as int]@,
            ));
            return c;
        }
        k += 1;
    }
    Ok(())
}

/// `r` reports requested file `path` as read: `content`.
pub open spec fn read_ok(r: ReadFileResult, path: Seq<char>, content: Seq<char>) -> bool {
    &&& r.file_path@ == path
    &&& r.file_name@ == entry_name(path)
    &&& r.success
    &&& opt_str(r.content) == Some(content)
    &&& r.error is None
}

/// `r` reports requested file `path` as failed with error `e`.
pub open spec fn read_failed(r: ReadFileResult, path: Seq<char>, e: CapabilityError) -> bool {
    &&& r.file_path@ == path
    &&& r.file_name@ == entry_name(path)
    &&& !r.success
    &&& r.content is None
    &&& opt_str(r.error) == Some(error_text(e.code, e.message@))
}

/// The index of the first failed read among `outcomes[k..]`, or their number.
pub open spec fn first_failed(outcomes: Seq<Result<String, CapabilityError>>, k: int) -> int
    decreases outcomes.len() - k,
{
    if k < 0 || k >= outcomes.len() {
        outcomes.len() as int
    } else if outcomes[k] is Err {
        k
    } else {
        first_failed(outcomes, k + 1)
    }
}

/// The number of successful reads among the first `n`.
pub open spec fn ok_count(outcomes: Seq<Result<String, CapabilityError>>, n: int) -> int
    decreases n,
{
    if n <= 0 || n > outcomes.len() {
        0
    } else {
        ok_count(outcomes, n - 1) + if outcomes[n - 1] is Ok {
            1int
        } else {
            0int
        }
    }
}

/// The response to a read request, given the outcome of reading each requested file in
/// order: one result per file; without `continue_on_error`, the first failure is the
/// answer instead.
pub fn read_files_response(request: &ReadFilesRequest, outcomes: &Vec<Result<String, CapabilityError>>) -> (r:
    Result<ReadFilesResponse, CapabilityError>)
    requires
        outcomes@.len() == request.file_paths@.len(),
    ensures
        ({
            let paths = request.file_paths@;
            let os = outcomes@;
            let stop = request.continue_on_error != Some(true) && first_failed(os, 0) < os.len();
            &&& stop ==> (r matches Err(e) && os[first_failed(os, 0)] matches Err(f) && e.code == f.code
                && e.message@ == f.message@)
            &&& !stop ==> (r matches Ok(resp) && {
                &&& resp.total_requested == paths.len()
                &&& resp.success_count == ok_count(os, os.len() as int)
                &&& resp.failure_count == os.len() - ok_count(os, os.len() as int)
                &&& resp.files@.len() == paths.len()
                &&& forall|k: int|
                    0 <= k < paths.len() ==> match os[k] {
                        Ok(c) => read_ok(#[trigger] resp.files@[k], paths[k]@, c@),
                        Err(e) => read_failed(resp.files@[k], paths[k]@, e),
                    }
            })
        }),
{
    let continue_on_error = match request.continue_on_error {
        Some(b) => b,
        None => false,
    };
    let ghost os = outcomes@;
    let mut files: Vec<ReadFileResult> = Vec::new();
    let mut success_count: usize = 0;
    let mut failure_count: usize = 0;
    let mut k: usize = 0;
    while k < request.file_paths.len()
        invariant
            k <= request.file_paths@.len() == os.len(),
            os == outcomes@,
            continue_on_error == (request.continue_on_error == Some(true)),
            !continue_on_error ==> first_failed(os, 0) == first_failed(os, k as int),
            files@.len() == k,
            success_count == ok_count(os, k as int),
            success_count + failure_count == k,
            forall|i: int|
                0 <= i < k ==> match os[i] {
                    Ok(c) => read_ok(#[trigger] files@[i], request.file_paths@[i]@, c@),
                    Err(e) => read_failed(files@[i], request.file_paths@[i]@, e),
                },
        decreases request.file_paths@.len() - k,
    {
        let path = &request.file_paths[k];
        match &outcomes[k] {
            Ok(content) => {
                files.push(
                    ReadFileResult {
                        file_path: path.clone(),
                        file_name: extract_file_name(path.as_str()),
                        success: true,
                        content: Some(content.clone()),
                        error: None,
                    },
                );
                success_count += 1;
            },
            Err(e) => {
                if !continue_on_error {
                    assert(first_failed(os, k as int) == k);
                    return Err(CapabilityError { code: e.code, message: e.message.clone() });
                }
                files.push(
                    ReadFileResult {
                        file_path: path.clone(),
                        file_name: extract_file_name(path.as_str()),
                        success: false,
                        content: None,
                        error: Some(e.text()),
                    },
                );
                failure_count += 1;
            },
        }
        k += 1;
    }
    Ok(ReadFilesResponse { files, total_requested: request.file_paths.len(), success_count, failure_count })
}


// ---------------------------------------------------------------------------
// Recently modified files
// ---------------------------------------------------------------------------

/// Parameters for the recent_files operation
pub struct RecentFilesRequest {
    /// Path to vault (CLI only)
    pub path: Option<String>,
    /// Only include files modified on or after this date (YYYY-MM-DD)
    pub since: Option<String>,
    /// Maximum number of results (default 20)
    pub limit: Option<usize>,
}

/// A single result entry for recent_files
#[derive(Debug)]
pub struct RecentFileEntry {
    /// File path relative to vault root
    pub file_path: String,
    /// File name only
    pub file_name: String,
    /// The timestamp used for sorting, as an ISO 8601 string
    pub updated_at: String,
    /// Whether the date came from frontmatter or filesystem mtime
    pub date_source: String,
}

/// Response from the recent_files operation
#[derive(Debug)]
pub struct RecentFilesResponse {
    pub files: Vec<RecentFileEntry>,
    /// Total matching files before the limit was applied
    pub total_found: usize,
}

pub open spec fn midnight_suffix() -> Seq<char> {
    seq!['T', '0', '0', ':', '0', '0', ':', '0', '0', 'Z']
}

pub open spec fn bad_since_message(since: Seq<char>) -> Seq<char> {
    seq!['I', 'n', 'v', 'a', 'l', 'i', 'd', ' ', 's', 'i', 'n', 'c', 'e', ' ', 'd', 'a', 't', 'e', ':', ' ']
        + since
}

/// The lower bound of a `since` date: the start of that day (UTC).
pub fn since_timestamp(since: &Option<String>) -> (r: Result<Option<i64>, CapabilityError>)
    requires
        since matches Some(s) ==> iso_slices_ok(encode_utf8(s@ + midnight_suffix())),
    ensures
        match since {
            None => r == Ok::<Option<i64>, CapabilityError>(None),
            Some(s) => match iso_parse(encode_utf8(s@ + midnight_suffix())) {
                Some(ts) => r == Ok::<Option<i64>, CapabilityError>(Some(ts)),
                None => r matches Err(e) && e.code == INVALID_PARAMS && e.message@ == bad_since_message(s@),
            },
        },
{
    match since {
        None => Ok(None),
        Some(s) => {
            let mut expanded = s.clone();
            push_str(&mut expanded, "T00:00:00Z");
            proof {
                reveal_strlit("T00:00:00Z");
                assert(expanded@ =~= s@ + midnight_suffix());
            }
            match parse_iso8601_to_unix(expanded.as_str()) {
                Some(ts) => Ok(Some(ts)),
                None => {
                    let mut m = to_string("Invalid since date: ");
                    push_str(&mut m, s.as_str());
                    proof {
                        reveal_strlit("Invalid since date: ");
                    }
                    let e = invalid_params(m.as_str());
                    assert(e.message@ =~= bad_since_message(s@));
                    Err(e)
                },
            }
        },
    }
}

pub open spec fn frontmatter_word() -> Seq<char> {
    seq!['f', 'r', 'o', 'n', 't', 'm', 'a', 't', 't', 'e', 'r']
}

pub open spec fn mtime_word() -> Seq<char> {
    seq!['m', 't', 'i', 'm', 'e']
}

/// Whether the `updated:` value of a file's frontmatter can be handed to the timestamp
/// parser (see `iso_slices_ok`).
pub open spec fn stamp_parsable(content: Option<String>) -> bool {
    content matches Some(c) ==> (spec_updated(c@) matches Some(u) ==> iso_slices_ok(encode_utf8(u)))
}

/// The timestamp of a file, from its content (when it could be read) and its modification
/// time (when known): `(unix seconds, source, text shown)`.
pub open spec fn stamp_of(content: Option<String>, mtime: Option<i64>) -> Option<(int, Seq<char>, Seq<char>)> {
    let from_frontmatter = match content {
        Some(c) => match spec_updated(c@) {
            Some(u) => match iso_parse(encode_utf8(u)) {
                Some(ts) => Some((ts as int, frontmatter_word(), u)),
                None => None,
            },
            None => None,
        },
        None => None,
    };
    match from_frontmatter {
        Some(x) => Some(x),
        None => match mtime {
            Some(t) => Some((t as int, mtime_word(), iso_of_unix(t as int))),
            None => None,
        },
    }
}

/// The best-available timestamp of a file: the frontmatter `updated:` value when it parses,
/// else the modification time.
pub fn file_timestamp_from(content: &Option<String>, mtime: Option<i64>) -> (r: Option<(i64, String, String)>)
    requires
        stamp_parsable(*content),
        mtime matches Some(t) ==> t - t % 86400 >= i64::MIN,
    ensures
        match stamp_of(*content, mtime) {
            Some(x) => r matches Some(y) && y.0 == x.0 && y.1@ == x.1 && y.2@ == x.2,
            None => r is None,
        },
{
    if let Some(c) = content {
        if let Some(updated) = extract_updated_from_frontmatter(c.as_str()) {
            if let Some(ts) = parse_iso8601_to_unix(updated.as_str()) {
                let source = to_string("frontmatter");
                proof {
                    reveal_strlit("frontmatter");
                }
                assert(source@ =~= frontmatter_word());
                return Some((ts, source, updated));
            }
        }
    }
    match mtime {
        Some(t) => {
            let source = to_string("mtime");
            proof {
                reveal_strlit("mtime");
            }
            assert(source@ =~= mtime_word());
            Some((t, source, unix_to_iso8601(t)))
        },
        None => None,
    }
}

/// The entry for the file at `path` (under `base`) with timestamp `stamp`.
pub fn recent_entry(base: &str, path: &str, stamp: (i64, String, String)) -> (r: (i64, RecentFileEntry))
    ensures
        r.0 == stamp.0,
        r.1.file_path@ == relative_path(base@, path@),
        r.1.file_name@ == entry_name(path@),
        r.1.updated_at == stamp.2,
        r.1.date_source == stamp.1,
{
    let (ts, source, display) = stamp;
    (ts, RecentFileEntry {
        file_path: relative_to(base, path),
        file_name: extract_file_name(path),
        updated_at: display,
        date_source: source,
    })
}

/// The stamped entries kept by a `since` bound, in order.
pub open spec fn since_filter(s: Seq<(i64, RecentFileEntry)>, since: Option<i64>) -> Seq<(i64, RecentFileEntry)>
    decreases s.len(),
{
    if s.len() == 0 {
        s
    } else {
        let rest = since_filter(s.drop_last(), since);
        if since matches Some(t) && s.last().0 < t {
            rest
        } else {
            rest.push(s.last())
        }
    }
}

/// The first position from `k` on whose entry is older than `x`.
pub open spec fn first_older(s: Seq<(i64, RecentFileEntry)>, x: (i64, RecentFileEntry), k: int) -> int
    decreases s.len() - k,
{
    if k < 0 || k >= s.len() {
        s.len() as int
    } else if s[k].0 < x.0 {
        k
    } else {
        first_older(s, x, k + 1)
    }
}

/// The entries sorted newest first, keeping the order of equal timestamps.
pub open spec fn newest_first(s: Seq<(i64, RecentFileEntry)>) -> Seq<(i64, RecentFileEntry)>
    decreases s.len(),
{
    if s.len() == 0 {
        s
    } else {
        let sorted = newest_first(s.drop_last());
        sorted.insert(first_older(sorted, s.last(), 0), s.last())
    }
}

/// The recent files among the stamped `entries` (in the order the vault was walked): those
/// not older than `since`, newest first, at most `limit` of them, with the number found.
pub fn select_recent(entries: Vec<(i64, RecentFileEntry)>, since: Option<i64>, limit: usize) -> (r: (
    Vec<RecentFileEntry>,
    usize,
))
    ensures
        ({
            let sorted = newest_first(since_filter(entries@, since));
            &&& r.1 == sorted.len()
            &&& r.0@ == sorted.take(if limit < sorted.len() { limit as int } else { sorted.len() as int }).map_values(
                |e: (i64, RecentFileEntry)| e.1,
            )
        }),
{
    let ghost all = entries@;
    let mut pending = entries;
    let mut sorted: Vec<(i64, RecentFileEntry)> = Vec::new();
    let mut k: usize = 0;
    let n = pending.len();
    while k < n
        invariant
            k <= n == all.len(),
            pending@ == all.skip(k as int),
            sorted@ == newest_first(since_filter(all.take(k as int), since)),
        decreases n - k,
    {
        let item = pending.remove(0);
        assert(item == all[k as int]);
        assert(pending@ =~= all.skip(k + 1));
        let ghost before = since_filter(all.take(k as int), since);
        assert(all.take(k + 1).drop_last() =~= all.take(k as int));
        let keep = match since {
            Some(t) => item.0 >= t,
            None => true,
        };
        if keep {
            let mut p: usize = 0;
            while p < sorted.len() && !(sorted[p].0 < item.0)
                invariant
                    p <= sorted@.len(),
                    first_older(sorted@, item, 0) == first_older(sorted@, item, p as int),
                decreases sorted@.len() - p,
            {
                p += 1;
            }
            proof {
                assert(since_filter(all.take(k + 1), since) == before.push(item));
                assert(before.push(item).drop_last() =~= before);
            }
            sorted.insert(p, item);
        }
        k += 1;
    }
    assert(all.take(n as int) =~= all);
    let total_found = sorted.len();
    let cut = if limit < sorted.len() { limit } else { sorted.len() };
    let ghost whole = sorted@;
    let mut files: Vec<RecentFileEntry> = Vec::new();
    let mut i: usize = 0;
    let mut rest = sorted;
    while i < cut
        invariant
            i <= cut <= whole.len(),
            rest@ == whole.skip(i as int),
            files@ == whole.take(i as int).map_values(|e: (i64, RecentFileEntry)| e.1),
        decreases cut - i,
    {
        let (_, entry) = rest.remove(0);
        assert(rest@ =~= whole.skip(i + 1));
        files.push(entry);
        assert(whole.take(i + 1).map_values(|e: (i64, RecentFileEntry)| e.1) =~= whole.take(
            i as int,
        ).map_values(|e: (i64, RecentFileEntry)| e.1).push(whole[i as int].1));
        i += 1;
    }
    (files, total_found)
}


pub open spec fn outside_vault_message() -> Seq<char> {
    seq![
        'I', 'n', 'v', 'a', 'l', 'i', 'd', ' ', 'p', 'a', 't', 'h', ':', ' ', 'p', 'a', 't', 'h', ' ',
        'm', 'u', 's', 't', ' ', 'b', 'e', ' ', 'w', 'i', 't', 'h', 'i', 'n', ' ', 't', 'h', 'e', ' ',
        'v', 'a', 'u', 'l', 't',
    ]
}

/// Checks the directory to list (resolved): it must lie within the vault.
pub fn check_list_target(canonical_base: &str, canonical_search: &str) -> (r: Result<(), CapabilityError>)
    ensures
        within(canonical_base@, canonical_search@) ==> r is Ok,
        !within(canonical_base@, canonical_search@) ==> (r matches Err(e) && e.code == INVALID_PARAMS
            && e.message@ == outside_vault_message()),
{
    if is_within(canonical_base, canonical_search) {
        Ok(())
    } else {
        let e = invalid_params("Invalid path: path must be within the vault");
        proof {
            reveal_strlit("Invalid path: path must be within the vault");
        }
        assert(e.message@ =~= outside_vault_message());
        Err(e)
    }
}


proof fn lemma_first_after(s: Seq<TreeV>, x: TreeV, k: int)
    requires
        0 <= k <= s.len(),
        forall|j: int| 0 <= j < k ==> !tree_before(x, #[trigger] s[j]),
    ensures
        k <= first_after(s, x, k) <= s.len(),
        forall|j: int| 0 <= j < first_after(s, x, k) ==> !tree_before(x, #[trigger] s[j]),
        first_after(s, x, k) < s.len() ==> tree_before(x, s[first_after(s, x, k)]),
    decreases s.len() - k,
{
    if k < s.len() && !tree_before(x, s[k]) {
        lemma_first_after(s, x, k + 1);
    }
}

proof fn lemma_tree_order()
    ensures
        strict_order(|a: TreeV, b: TreeV| tree_before(a, b)),
{
    let before = |a: TreeV, b: TreeV| tree_before(a, b);
    assert forall|a: TreeV| !#[trigger] before(a, a) by {
        lemma_lex_irrefl(a.name);
    }
    assert forall|a: TreeV, b: TreeV, c: TreeV| #[trigger] before(a, b) && #[trigger] before(b, c) implies before(
        a,
        c,
    ) by {
        if a.is_directory == b.is_directory && lex_lt(a.name, b.name) && b.is_directory == c.is_directory
            && lex_lt(b.name, c.name) {
            lemma_lex_trans(a.name, b.name, c.name);
        }
    }
}

/// The children of a directory come directories first, then by name, and each kept child
/// appears exactly once.
pub proof fn law_sorted_children(s: Seq<TreeV>)
    ensures
        sorted_by(sort_tree(s), |a: TreeV, b: TreeV| tree_before(a, b)),
        sort_tree(s).to_multiset() == s.to_multiset(),
    decreases s.len(),
{
    broadcast use vstd::seq_lib::group_to_multiset_ensures;
    if s.len() == 0 {
        assert(s.to_multiset() =~= vstd::multiset::Multiset::empty());
    } else {
        let rest = s.drop_last();
        law_sorted_children(rest);
        let sorted = sort_tree(rest);
        lemma_first_after(sorted, s.last(), 0);
        lemma_tree_order();
        lemma_insert_sorted(sorted, s.last(), first_after(sorted, s.last(), 0), |a: TreeV, b: TreeV| tree_before(a, b));
        assert(rest.push(s.last()) =~= s);
    }
}


proof fn lemma_first_older(s: Seq<(i64, RecentFileEntry)>, x: (i64, RecentFileEntry), k: int)
    requires
        0 <= k <= s.len(),
        forall|j: int| 0 <= j < k ==> !(x.0 > (#[trigger] s[j]).0),
    ensures
        k <= first_older(s, x, k) <= s.len(),
        forall|j: int| 0 <= j < first_older(s, x, k) ==> !(x.0 > (#[trigger] s[j]).0),
        first_older(s, x, k) < s.len() ==> x.0 > s[first_older(s, x, k)].0,
    decreases s.len() - k,
{
    if k < s.len() && !(s[k].0 < x.0) {
        lemma_first_older(s, x, k + 1);
    }
}

/// Recent files come newest first (a later entry is never newer than an earlier one), and
/// each kept file appears exactly once.
pub proof fn law_newest_first(s: Seq<(i64, RecentFileEntry)>)
    ensures
        forall|i: int, j: int|
            0 <= i < j < newest_first(s).len() ==> (#[trigger] newest_first(s)[i]).0 >= (
            #[trigger] newest_first(s)[j]).0,
        newest_first(s).to_multiset() == s.to_multiset(),
    decreases s.len(),
{
    broadcast use vstd::seq_lib::group_to_multiset_ensures;
    let before = |a: (i64, RecentFileEntry), b: (i64, RecentFileEntry)| a.0 > b.0;
    if s.len() == 0 {
        assert(s.to_multiset() =~= vstd::multiset::Multiset::empty());
    } else {
        let rest = s.drop_last();
        law_newest_first(rest);
        let sorted = newest_first(rest);
        assert(sorted_by(sorted, before));
        lemma_first_older(sorted, s.last(), 0);
        lemma_insert_sorted(sorted, s.last(), first_older(sorted, s.last(), 0), before);
        assert(rest.push(s.last()) =~= s);
        let t = newest_first(s);
        assert(sorted_by(t, before));
        assert forall|i: int, j: int| 0 <= i < j < t.len() implies (#[trigger] t[i]).0 >= (#[trigger] t[j]).0 by {
            assert(!before(t[j], t[i]));
        }
    }
}

/// The recent files kept by a `since` bound are exactly those not older than it, in order;
/// without a bound all are kept.
pub proof fn law_since_keeps_newer(s: Seq<(i64, RecentFileEntry)>, since: i64)
    ensures
        since_filter(s, Some(since)) == s.filter(|e: (i64, RecentFileEntry)| e.0 >= since),
        since_filter(s, None) == s,
    decreases s.len(),
{
    reveal(Seq::filter);
    if s.len() > 0 {
        law_since_keeps_newer(s.drop_last(), since);
        assert(s.drop_last().push(s.last()) =~= s);
    }
}


// ---------------------------------------------------------------------------
// The tree as text
// ---------------------------------------------------------------------------

/// The label that `labels` gives a file size: the first one listed for it.
pub open spec fn size_label(labels: Seq<(u64, String)>, size: u64) -> Option<Seq<char>>
    decreases labels.len(),
{
    if labels.len() == 0 {
        None
    } else if labels[0].0 == size {
        Some(labels[0].1@)
    } else {
        size_label(labels.drop_first(), size)
    }
}

/// The line of one node: its indentation, its name, then `/` for a directory or the size
/// label of a file with a size.
pub open spec fn tree_line(n: FileTreeNode, prefix: Seq<char>, labels: Seq<(u64, String)>) -> Seq<char> {
    let tail = if n.is_directory {
        seq!['/']
    } else {
        match n.size_bytes {
            Some(sz) => match size_label(labels, sz) {
                Some(l) => seq![' ', '('] + l + seq![')'],
                None => seq![],
            },
            None => seq![],
        }
    };
    prefix + n.name@ + tail + seq!['\n']
}

/// A node's line followed by its children's text, each two spaces further in.
pub open spec fn tree_text(n: FileTreeNode, prefix: Seq<char>, labels: Seq<(u64, String)>) -> Seq<char>
    decreases n, 0int,
{
    tree_line(n, prefix, labels) + children_text(n.children@, prefix + seq![' ', ' '], labels, 0)
}

/// The text of the nodes `s[k..]`.
pub open spec fn children_text(
    s: Seq<FileTreeNode>,
    prefix: Seq<char>,
    labels: Seq<(u64, String)>,
    k: int,
) -> Seq<char>
    decreases s, s.len() - k,
{
    if k < 0 || k >= s.len() {
        seq![]
    } else {
        tree_text(s[k], prefix, labels) + children_text(s, prefix, labels, k + 1)
    }
}

fn push_size_label(out: &mut String, labels: &Vec<(u64, String)>, size: u64)
    ensures
        final(out)@ == old(out)@ + match size_label(labels@, size) {
            Some(l) => seq![' ', '('] + l + seq![')'],
            None => seq![],
        },
{
    let mut i: usize = 0;
    assert(labels@.skip(0) =~= labels@);
    while i < labels.len()
        invariant
            i <= labels@.len(),
            out@ == old(out)@,
            size_label(labels@, size) == size_label(labels@.skip(i as int), size),
        decreases labels@.len() - i,
    {
        assert(labels@.skip(i as int).drop_first() =~= labels@.skip(i + 1));
        if labels[i].0 == size {
            out.push(' ');
            out.push('(');
            push_str(out, labels[i].1.as_str());
            out.push(')');
            assert(out@ =~= old(out)@ + (seq![' ', '('] + labels@[i as int].1@ + seq![')']));
            return;
        }
        i += 1;
    }
    assert(labels@.skip(i as int).len() == 0);
}

fn push_tree(out: &mut String, node: &FileTreeNode, prefix: &String, labels: &Vec<(u64, String)>)
    ensures
        final(out)@ == old(out)@ + tree_text(*node, prefix@, labels@),
    decreases *node,
{
    let ghost start = out@;
    push_str(out, prefix.as_str());
    push_str(out, node.name.as_str());
    if node.is_directory {
        out.push('/');
    } else {
        match node.size_bytes {
            Some(sz) => push_size_label(out, labels, sz),
            None => {},
        }
    }
    out.push('\n');
    assert(out@ =~= start + tree_line(*node, prefix@, labels@));
    let mut child_prefix = to_string(prefix.as_str());
    push_str(&mut child_prefix, "  ");
    proof {
        reveal_strlit("  ");
    }
    let ghost cp = child_prefix@;
    assert(cp =~= prefix@ + seq![' ', ' ']);
    let ghost line_end = out@;
    let mut k: usize = 0;
    while k < node.children.len()
        invariant
            k <= node.children@.len(),
            cp == child_prefix@,
            out@ + children_text(node.children@, cp, labels@, k as int) == line_end + children_text(
                node.children@,
                cp,
                labels@,
                0,
            ),
        decreases node.children@.len() - k,
    {
        let ghost before = out@;
        push_tree(out, &node.children[k], &child_prefix, labels);
        assert(out@ + children_text(node.children@, cp, labels@, k + 1) =~= before + children_text(
            node.children@,
            cp,
            labels@,
            k as int,
        ));
        k += 1;
    }
    assert(children_text(node.children@, cp, labels@, k as int) =~= seq![]);
    assert(out@ =~= start + tree_text(*node, prefix@, labels@));
}

/// Format a file tree as visual indented text: a line per node in document order, indented
/// two spaces per level from `indent_level`, directories marked with `/`, and files with a
/// size followed by its label in `labels` (what the size shows as, e.g. `2.0 KB`).
pub fn format_tree_visual(node: &FileTreeNode, indent_level: usize, labels: &Vec<(u64, String)>) -> (r:
    String)
    ensures
        r@ == tree_text(*node, Seq::new((2 * indent_level) as nat, |i: int| ' '), labels@),
{
    let mut prefix = String::new();
    let mut k: usize = 0;
    while k < indent_level
        invariant
            k <= indent_level,
            prefix@ == Seq::new((2 * k) as nat, |i: int| ' '),
        decreases indent_level - k,
    {
        prefix.push(' ');
        prefix.push(' ');
        assert(prefix@ =~= Seq::new((2 * (k + 1)) as nat, |i: int| ' '));
        k += 1;
    }
    let mut out = String::new();
    push_tree(&mut out, node, &prefix, labels);
    assert(out@ =~= tree_text(*node, prefix@, labels@));
    out
}

} // verus!

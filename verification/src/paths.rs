//! Checks on the files a request names: inside the vault, and markdown.
use vstd::prelude::*;

use crate::daily_notes::{file_name_in, lemma_segment_start, segment_start};
use crate::error::{invalid_params, CapabilityError, INVALID_PARAMS};
use crate::text::{chars_of, push_str, string_of_range, to_string};

verus! {

/// `path` lies within `base` (both canonical): it is `base`, or `base` followed by `/` and
/// more, component-wise as `Path::starts_with` compares.
pub open spec fn within(base: Seq<char>, path: Seq<char>) -> bool {
    ||| path == base
    ||| (base.len() > 0 && base.last() == '/' && base.len() <= path.len() && path.take(base.len() as int) == base)
    ||| (base.len() < path.len() && path.take(base.len() as int) == base && path[base.len() as int] == '/')
}

/// The extension of a path (`Path::extension`): what follows the last `.` of its file name,
/// when that `.` is not the name's first character.
pub open spec fn extension_of(path: Seq<char>) -> Option<Seq<char>> {
    match file_name_in(path, path.len() as int) {
        Some(name) => match last_dot(name, name.len() as int) {
            Some(i) => if i > 0 {
                Some(name.subrange(i + 1, name.len() as int))
            } else {
                None
            },
            None => None,
        },
        None => None,
    }
}

/// Index of the last `.` in `s[..k]`.
pub open spec fn last_dot(s: Seq<char>, k: int) -> Option<int>
    decreases k,
{
    if k <= 0 {
        None
    } else if s[k - 1] == '.' {
        Some(k - 1)
    } else {
        last_dot(s, k - 1)
    }
}

pub open spec fn outside_message(requested: Seq<char>) -> Seq<char> {
    seq!['I', 'n', 'v', 'a', 'l', 'i', 'd', ' ', 'p', 'a', 't', 'h', ' ', '\''] + requested + seq![
        '\'', ':', ' ', 'm', 'u', 's', 't', ' ', 'b', 'e', ' ', 'w', 'i', 't', 'h', 'i', 'n', ' ',
        'v', 'a', 'u', 'l', 't',
    ]
}

pub open spec fn not_markdown_message(requested: Seq<char>) -> Seq<char> {
    seq![
        'I', 'n', 'v', 'a', 'l', 'i', 'd', ' ', 'f', 'i', 'l', 'e', ' ', 't', 'y', 'p', 'e', ' ', '\'',
    ] + requested + seq![
        '\'', ':', ' ', 'o', 'n', 'l', 'y', ' ', '.', 'm', 'd', ' ', 'f', 'i', 'l', 'e', 's', ' ',
        'a', 'l', 'l', 'o', 'w', 'e', 'd',
    ]
}

fn starts_with_chars(s: &Vec<char>, t: &Vec<char>) -> (r: bool)
    ensures
        r == (t@.len() <= s@.len() && s@.take(t@.len() as int) == t@),
{
    if t.len() > s.len() {
        return false;
    }
    let mut i: usize = 0;
    while i < t.len()
        invariant
            i <= t.len() <= s.len(),
            s@.take(i as int) == t@.take(i as int),
        decreases t.len() - i,
    {
        if s[i] != t[i] {
            assert(s@.take(t@.len() as int)[i as int] != t@[i as int]);
            return false;
        }
        assert(s@.take(i + 1) =~= s@.take(i as int).push(s@[i as int]));
        assert(t@.take(i + 1) =~= t@.take(i as int).push(t@[i as int]));
        i += 1;
    }
    assert(t@.take(t@.len() as int) =~= t@);
    true
}

/// Whether `path` lies within `base` (see `within`).
pub fn is_within(base: &str, path: &str) -> (r: bool)
    ensures
        r == within(base@, path@),
{
    let b = chars_of(base);
    let p = chars_of(path);
    if b.len() == p.len() && starts_with_chars(&p, &b) {
        assert(p@.take(b@.len() as int) =~= p@);
        return true;
    }
    let prefix = starts_with_chars(&p, &b);
    proof {
        if p@ == b@ {
            assert(p@.take(b@.len() as int) =~= p@);
        }
    }
    if b.len() > 0 && b[b.len() - 1] == '/' && prefix {
        return true;
    }
    b.len() < p.len() && prefix && p[b.len()] == '/'
}

/// Whether the path names a markdown file: its extension is exactly `md`.
pub fn has_md_extension(path: &str) -> (r: bool)
    ensures
        r == (extension_of(path@) == Some(seq!['m', 'd'])),
{
    let v = chars_of(path);
    let mut end = v.len();
    loop
        invariant
            end <= v.len(),
            v@ == path@,
            file_name_in(v@, end as int) == file_name_in(v@, v@.len() as int),
        decreases end,
    {
        if end == 0 {
            return false;
        }
        if v[end - 1] == '/' {
            end -= 1;
        } else {
            let mut s = end;
            while s > 0 && v[s - 1] != '/'
                invariant
                    s <= end <= v.len(),
                    segment_start(v@, s as int) == segment_start(v@, end as int),
                decreases s,
            {
                s -= 1;
            }
            proof {
                lemma_segment_start(v@, end as int);
            }
            let ghost name = v@.subrange(s as int, end as int);
            if end - s == 1 && v[s] == '.' {
                assert(name =~= seq!['.']);
                end = s;
            } else if end - s == 2 && v[s] == '.' && v[s + 1] == '.' {
                assert(name =~= seq!['.', '.']);
                return false;
            } else {
                proof {
                    if name.len() == 1 {
                        assert(name[0] == v@[s as int]);
                    }
                    if name.len() == 2 {
                        assert(name[0] == v@[s as int] && name[1] == v@[s + 1]);
                    }
                }
                assert(file_name_in(v@, end as int) == Some(name));
                let mut k = end;
                while k > s && v[k - 1] != '.'
                    invariant
                        s <= k <= end <= v.len(),
                        name == v@.subrange(s as int, end as int),
                        last_dot(name, (k - s) as int) == last_dot(name, name.len() as int),
                    decreases k,
                {
                    assert(name[k - s - 1] == v@[k - 1]);
                    k -= 1;
                }
                if k == s {
                    return false;
                }
                assert(name[k - s - 1] == v@[k - 1]);
                assert(last_dot(name, (k - s) as int) == Some((k - s - 1) as int));
                assert(last_dot(name, name.len() as int) == Some((k - s - 1) as int));
                assert(file_name_in(v@, v@.len() as int) == Some(name));
                let i = k - 1 - s;
                if i == 0 {
                    return false;
                }
                let ext = end - k;
                let r = ext == 2 && v[k] == 'm' && v[k + 1] == 'd';
                proof {
                    let e = name.subrange(i + 1, name.len() as int);
                    assert(e.len() == ext);
                    assert(extension_of(path@) == Some(e));
                    if ext == 2 {
                        assert(e[0] == v@[k as int] && e[1] == v@[k + 1]);
                    }
                    if r {
                        assert(e =~= seq!['m', 'd']);
                    }
                }
                return r;
            }
        }
    }
}

/// Checks a file that a request names, after both paths are made canonical: it must lie
/// within the vault and be a markdown file.
pub fn check_vault_file(canonical_base: &str, canonical_full: &str, requested: &str) -> (r: Result<
    (),
    CapabilityError,
>)
    ensures
        !within(canonical_base@, canonical_full@) ==> (r matches Err(e) && e.code == INVALID_PARAMS
            && e.message@ == outside_message(requested@)),
        within(canonical_base@, canonical_full@) && extension_of(canonical_full@) != Some(
            seq!['m', 'd'],
        ) ==> (r matches Err(e) && e.code == INVALID_PARAMS && e.message@ == not_markdown_message(
            requested@,
        )),
        within(canonical_base@, canonical_full@) && extension_of(canonical_full@) == Some(
            seq!['m', 'd'],
        ) ==> r is Ok,
{
    proof {
        reveal_strlit("Invalid path '");
        reveal_strlit("': must be within vault");
        reveal_strlit("Invalid file type '");
        reveal_strlit("': only .md files allowed");
    }
    if !is_within(canonical_base, canonical_full) {
        let mut m = to_string("Invalid path '");
        push_str(&mut m, requested);
        push_str(&mut m, "': must be within vault");
        let e = invalid_params(m.as_str());
        assert(e.message@ =~= outside_message(requested@));
        return Err(e);
    }
    if !has_md_extension(canonical_full) {
        let mut m = to_string("Invalid file type '");
        push_str(&mut m, requested);
        push_str(&mut m, "': only .md files allowed");
        let e = invalid_params(m.as_str());
        assert(e.message@ =~= not_markdown_message(requested@));
        return Err(e);
    }
    Ok(())
}


/// `path` with the prefix `base` taken off (`Path::strip_prefix`, then the rest as text), or
/// `path` itself when it does not lie within `base`.
pub open spec fn relative_path(base: Seq<char>, path: Seq<char>) -> Seq<char> {
    if path == base {
        seq![]
    } else if !within(base, path) {
        path
    } else if base.len() > 0 && base.last() == '/' {
        path.skip(base.len() as int)
    } else {
        path.skip(base.len() + 1int)
    }
}

/// The path relative to `base` (see `relative_path`).
pub fn relative_to(base: &str, path: &str) -> (r: String)
    ensures
        r@ == relative_path(base@, path@),
{
    let b = chars_of(base);
    let p = chars_of(path);
    if !is_within(base, path) {
        return to_string(path);
    }
    if b.len() == p.len() {
        assert(path@.take(base@.len() as int) =~= path@);
        return String::new();
    }
    proof {
        assert(path@ != base@);
    }
    let from = if b.len() > 0 && b[b.len() - 1] == '/' { b.len() } else { b.len() + 1 };
    let r = string_of_range(&p, from, p.len());
    assert(p@.subrange(from as int, p@.len() as int) =~= p@.skip(from as int));
    r
}


/// `base` joined with the relative path `part` (`Path::join`): a separator in between unless
/// `base` is empty or already ends with one.
pub open spec fn join_path(base: Seq<char>, part: Seq<char>) -> Seq<char> {
    if base.len() == 0 || base.last() == '/' {
        base + part
    } else {
        base + seq!['/'] + part
    }
}

/// Appends `part` to the path `p` (`PathBuf::push` of a relative part).
pub(crate) fn push_path(p: &mut String, part: &str)
    ensures
        final(p)@ == join_path(old(p)@, part@),
{
    let v = chars_of(p.as_str());
    if v.len() > 0 && v[v.len() - 1] != '/' {
        p.push('/');
    }
    push_str(p, part);
    assert(final(p)@ =~= join_path(old(p)@, part@));
}

} // verus!

//! The terms that keyword (BM25) search indexes and queries: lower-cased text split at
//! whitespace and ASCII punctuation. The scores themselves are floating point and live
//! outside this library.
use vstd::prelude::*;

use crate::text::{chars_of, is_whitespace, is_ws, lowercase, string_of_range, strings_view, to_lowercase};

verus! {

/// `char::is_ascii_punctuation`.
pub open spec fn is_punct(c: char) -> bool {
    ||| ('!' <= c && c <= '/')
    ||| (':' <= c && c <= '@')
    ||| ('[' <= c && c <= '`')
    ||| ('{' <= c && c <= '~')
}

/// A character at which text is split into terms.
pub open spec fn is_term_break(c: char) -> bool {
    is_ws(c) || is_punct(c)
}

fn term_break(c: char) -> (r: bool)
    ensures
        r == is_term_break(c),
{
    is_whitespace(c) || ('!' <= c && c <= '/') || (':' <= c && c <= '@') || ('[' <= c && c <= '`')
        || ('{' <= c && c <= '~')
}

/// The end of the term starting at `i`: the next break, or the end of the text.
pub open spec fn term_end(s: Seq<char>, i: int) -> int
    decreases s.len() - i,
{
    if i >= s.len() {
        s.len() as int
    } else if is_term_break(s[i]) {
        i
    } else {
        term_end(s, i + 1)
    }
}

pub proof fn lemma_term_end(s: Seq<char>, i: int)
    requires
        0 <= i <= s.len(),
    ensures
        i <= term_end(s, i) <= s.len(),
    decreases s.len() - i,
{
    if i < s.len() && !is_term_break(s[i]) {
        lemma_term_end(s, i + 1);
    }
}

/// The non-empty pieces of `s` from `i` on between breaks.
pub open spec fn terms_from(s: Seq<char>, i: int) -> Seq<Seq<char>>
    decreases s.len() - i,
{
    if i < 0 || i >= s.len() {
        seq![]
    } else if is_term_break(s[i]) {
        terms_from(s, i + 1)
    } else {
        let e = term_end(s, i + 1);
        proof {
            lemma_term_end(s, i + 1);
        }
        seq![s.subrange(i, e)] + terms_from(s, e)
    }
}

/// Tokenize text into lowercase tokens (simple whitespace + punctuation split): split on any
/// whitespace or ASCII punctuation character, lowercase, leave out empty pieces.
pub fn tokenize(text: &str) -> (r: Vec<String>)
    ensures
        strings_view(r@) == terms_from(lowercase(text@), 0),
{
    let lower = to_lowercase(text);
    let v = chars_of(lower.as_str());
    let ghost s = v@;
    let mut out: Vec<String> = Vec::new();
    let mut i: usize = 0;
    while i < v.len()
        invariant
            i <= v@.len(),
            s == v@,
            s == lowercase(text@),
            strings_view(out@) + terms_from(s, i as int) == terms_from(s, 0),
        decreases v@.len() - i,
    {
        if term_break(v[i]) {
            i += 1;
        } else {
            let mut e = i + 1;
            while e < v.len() && !term_break(v[e])
                invariant
                    i < e <= v@.len(),
                    s == v@,
                    term_end(s, i + 1) == term_end(s, e as int),
                decreases v@.len() - e,
            {
                e += 1;
            }
            let ghost before = out@;
            out.push(string_of_range(&v, i, e));
            assert(strings_view(out@) =~= strings_view(before).push(s.subrange(i as int, e as int)));
            assert(terms_from(s, i as int) == seq![s.subrange(i as int, e as int)] + terms_from(s, e as int));
            assert(strings_view(out@) + terms_from(s, e as int) =~= strings_view(before) + terms_from(
                s,
                i as int,
            ));
            i = e;
        }
    }
    assert(strings_view(out@) =~= strings_view(out@) + terms_from(s, i as int));
    out
}


/// An ASCII letter or digit.
pub open spec fn is_ascii_alnum(c: char) -> bool {
    ||| ('0' <= c && c <= '9')
    ||| ('A' <= c && c <= 'Z')
    ||| ('a' <= c && c <= 'z')
}

/// Text breaks into terms exactly at whitespace and at the visible ASCII characters
/// (`'!'` through `'~'`) that are neither letters nor digits: an ASCII letter or digit never
/// breaks a term.
pub proof fn law_term_breaks(c: char)
    ensures
        is_term_break(c) <==> (is_ws(c) || ('!' <= c && c <= '~' && !is_ascii_alnum(c))),
        is_ascii_alnum(c) ==> !is_term_break(c),
{
}

/// A run of ASCII letters and digits is a single term, whole.
pub proof fn law_alnum_run_is_one_term(s: Seq<char>)
    requires
        s.len() > 0,
        forall|i: int| 0 <= i < s.len() ==> is_ascii_alnum(#[trigger] s[i]),
    ensures
        terms_from(s, 0) == seq![s],
{
    assert forall|i: int| 0 <= i <= s.len() implies #[trigger] term_end(s, i) == s.len() by {
        lemma_alnum_term_end(s, i);
    }
    assert(s.subrange(0, s.len() as int) =~= s);
    assert(terms_from(s, s.len() as int) =~= seq![]);
}

proof fn lemma_alnum_term_end(s: Seq<char>, i: int)
    requires
        0 <= i <= s.len(),
        forall|j: int| 0 <= j < s.len() ==> is_ascii_alnum(#[trigger] s[j]),
    ensures
        term_end(s, i) == s.len(),
    decreases s.len() - i,
{
    if i < s.len() {
        assert(is_ascii_alnum(s[i]));
        lemma_alnum_term_end(s, i + 1);
    }
}


/// Every term is non-empty and holds no break character.
pub proof fn law_terms_hold_no_breaks(s: Seq<char>, i: int)
    requires
        0 <= i,
    ensures
        forall|k: int|
            0 <= k < terms_from(s, i).len() ==> (#[trigger] terms_from(s, i)[k]).len() > 0 && forall|
                m: int,
            |
                0 <= m < terms_from(s, i)[k].len() ==> !is_term_break(#[trigger] terms_from(s, i)[k][m]),
    decreases s.len() - i,
{
    if i < s.len() {
        if is_term_break(s[i]) {
            law_terms_hold_no_breaks(s, i + 1);
            assert(terms_from(s, i) == terms_from(s, i + 1));
        } else {
            let e = term_end(s, i + 1);
            lemma_term_end(s, i + 1);
            lemma_term_end_clear(s, i + 1);
            law_terms_hold_no_breaks(s, e);
            let all = terms_from(s, i);
            let rest = terms_from(s, e);
            assert(all == seq![s.subrange(i, e)] + rest);
            assert forall|k: int| 0 <= k < all.len() implies (#[trigger] all[k]).len() > 0 && forall|
                m: int,
            | 0 <= m < all[k].len() ==> !is_term_break(#[trigger] all[k][m]) by {
                if k > 0 {
                    assert(all[k] == rest[k - 1]);
                } else {
                    assert forall|m: int| 0 <= m < all[0].len() implies !is_term_break(
                        #[trigger] all[0][m],
                    ) by {
                        assert(all[0] == s.subrange(i, e));
                        assert(all[0][m] == s[i + m]);
                        if m > 0 {
                            assert(i + 1 <= i + m < e);
                        }
                    }
                }
            }
        }
    }
}

proof fn lemma_term_end_clear(s: Seq<char>, i: int)
    requires
        0 <= i <= s.len(),
    ensures
        forall|m: int| i <= m < term_end(s, i) ==> !is_term_break(#[trigger] s[m]),
    decreases s.len() - i,
{
    if i < s.len() && !is_term_break(s[i]) {
        lemma_term_end_clear(s, i + 1);
    }
}

} // verus!

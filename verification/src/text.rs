//! Character-level helpers shared by the parsers and formatters of the library.
use vstd::prelude::*;
use vstd::std_specs::iter::IteratorSpec;

verus! {

broadcast use vstd::string::group_string_axioms;

/// `String::push` appends the character to the string (std's documentation: "Appends the
/// given char to the end of this String").
pub assume_specification[ String::push ](s: &mut String, ch: char)
    ensures
        final(s)@ == old(s)@.push(ch),
;

// ---------------------------------------------------------------------------
// Character classes
// ---------------------------------------------------------------------------

/// An ASCII decimal digit.
pub open spec fn is_digit(c: char) -> bool {
    '0' <= c && c <= '9'
}

/// The numeric value of an ASCII digit.
pub open spec fn digit_val(c: char) -> int {
    (c as int) - ('0' as int)
}

/// Every character of `s` is an ASCII digit.
pub open spec fn all_digits(s: Seq<char>) -> bool {
    forall|i: int| 0 <= i < s.len() ==> is_digit(#[trigger] s[i])
}

/// The Unicode `White_Space` property, which is what `char::is_whitespace` tests.
pub open spec fn is_ws(c: char) -> bool {
    ||| ('\u{9}' <= c && c <= '\u{d}')
    ||| c == ' '
    ||| c == '\u{85}'
    ||| c == '\u{a0}'
    ||| c == '\u{1680}'
    ||| ('\u{2000}' <= c && c <= '\u{200a}')
    ||| c == '\u{2028}'
    ||| c == '\u{2029}'
    ||| c == '\u{202f}'
    ||| c == '\u{205f}'
    ||| c == '\u{3000}'
}

pub fn is_whitespace(c: char) -> (r: bool)
    ensures
        r == is_ws(c),
{
    ('\u{9}' <= c && c <= '\u{d}') || c == ' ' || c == '\u{85}' || c == '\u{a0}' || c == '\u{1680}'
        || ('\u{2000}' <= c && c <= '\u{200a}') || c == '\u{2028}' || c == '\u{2029}' || c
        == '\u{202f}' || c == '\u{205f}' || c == '\u{3000}'
}

pub fn is_ascii_digit(c: char) -> (r: bool)
    ensures
        r == is_digit(c),
{
    '0' <= c && c <= '9'
}

// ---------------------------------------------------------------------------
// Conversions between strings and character vectors
// ---------------------------------------------------------------------------

/// The characters of a string slice, in order.
pub fn chars_of(s: &str) -> (r: Vec<char>)
    ensures
        r@ == s@,
{
    let mut it = s.chars();
    let mut out: Vec<char> = Vec::new();
    loop
        invariant
            out@ + it.remaining() == s@,
            it.decrease() is Some,
        decreases it.decrease()->0,
    {
        match it.next() {
            Some(c) => {
                out.push(c);
            },
            None => {
                assert(out@ =~= s@);
                return out;
            },
        }
    }
}

/// Appends `v[lo..hi]` to `s`.
pub fn push_range(s: &mut String, v: &Vec<char>, lo: usize, hi: usize)
    requires
        lo <= hi <= v.len(),
    ensures
        final(s)@ == old(s)@ + v@.subrange(lo as int, hi as int),
{
    let mut i = lo;
    while i < hi
        invariant
            lo <= i <= hi <= v.len(),
            s@ == old(s)@ + v@.subrange(lo as int, i as int),
        decreases hi - i,
    {
        s.push(v[i]);
        assert(v@.subrange(lo as int, i + 1) =~= v@.subrange(lo as int, i as int).push(v@[i as int]));
        i += 1;
    }
}

/// The string made of `v[lo..hi]`.
pub fn string_of_range(v: &Vec<char>, lo: usize, hi: usize) -> (r: String)
    requires
        lo <= hi <= v.len(),
    ensures
        r@ == v@.subrange(lo as int, hi as int),
{
    let mut s = String::new();
    push_range(&mut s, v, lo, hi);
    assert(Seq::<char>::empty() + v@.subrange(lo as int, hi as int) =~= v@.subrange(
        lo as int,
        hi as int,
    ));
    s
}

/// Appends all of `t` to `s`.
pub fn push_str(s: &mut String, t: &str)
    ensures
        final(s)@ == old(s)@ + t@,
{
    let v = chars_of(t);
    push_range(s, &v, 0, v.len());
    assert(v@.subrange(0, v@.len() as int) =~= v@);
}

/// An owned copy of `t`.
pub fn to_string(t: &str) -> (r: String)
    ensures
        r@ == t@,
{
    let mut s = String::new();
    push_str(&mut s, t);
    assert(Seq::<char>::empty() + t@ =~= t@);
    s
}


// ---------------------------------------------------------------------------
// Decimal numbers
// ---------------------------------------------------------------------------

/// The value of a string of decimal digits (most significant first).
pub open spec fn digits_value(s: Seq<char>) -> nat
    decreases s.len(),
{
    if s.len() == 0 {
        0
    } else {
        (digits_value(s.drop_last()) * 10 + digit_val(s.last())) as nat
    }
}

pub proof fn lemma_digits_value_prefix(s: Seq<char>, k: int)
    requires
        0 <= k <= s.len(),
        all_digits(s),
    ensures
        digits_value(s.take(k)) <= digits_value(s),
    decreases s.len() - k,
{
    if k < s.len() {
        lemma_digits_value_prefix(s, k + 1);
        assert(s.take(k + 1).drop_last() =~= s.take(k));
        assert(s.take(k + 1).last() == s[k]);
        assert(is_digit(s[k]));
        let x = digits_value(s.take(k));
        assert(x * 10 + digit_val(s[k]) >= x) by (nonlinear_arith)
            requires
                x >= 0,
                digit_val(s[k]) >= 0,
        ;
    } else {
        assert(s.take(k) =~= s);
    }
}

/// What `u32::from_str` accepts: an optional `+` and at least one digit, within range.
pub open spec fn parse_u32_spec(s: Seq<char>) -> Option<u32> {
    let t = if s.len() > 0 && s[0] == '+' { s.drop_first() } else { s };
    if t.len() > 0 && all_digits(t) && digits_value(t) <= u32::MAX {
        Some(digits_value(t) as u32)
    } else {
        None
    }
}

/// Parses the digits `v[lo..hi]`, giving `None` when they are not all digits or exceed `bound`.
pub fn parse_digits(v: &Vec<char>, lo: usize, hi: usize, bound: u64) -> (r: Option<u64>)
    requires
        lo <= hi <= v.len(),
    ensures
        r matches Some(n) ==> all_digits(v@.subrange(lo as int, hi as int)) && n == digits_value(
            v@.subrange(lo as int, hi as int),
        ) && n <= bound,
        r is None ==> !all_digits(v@.subrange(lo as int, hi as int)) || digits_value(
            v@.subrange(lo as int, hi as int),
        ) > bound,
{
    let ghost full = v@.subrange(lo as int, hi as int);
    let mut acc: u64 = 0;
    let mut i = lo;
    while i < hi
        invariant
            lo <= i <= hi <= v.len(),
            full == v@.subrange(lo as int, hi as int),
            all_digits(v@.subrange(lo as int, i as int)),
            acc == digits_value(v@.subrange(lo as int, i as int)),
            acc <= bound,
        decreases hi - i,
    {
        let c = v[i];
        assert(v@.subrange(lo as int, i + 1).drop_last() =~= v@.subrange(lo as int, i as int));
        assert(v@.subrange(lo as int, i + 1).last() == c);
        if !is_ascii_digit(c) {
            assert(!is_digit(full[i - lo]));
            return None;
        }
        let d: u64 = (c as u32 - '0' as u32) as u64;
        assert(d == digit_val(c));
        if d > bound || acc > (bound - d) / 10 {
            proof {
                assert(full.take(i + 1 - lo) =~= v@.subrange(lo as int, i + 1));
                assert(all_digits(full) ==> digits_value(full.take(i + 1 - lo)) <= digits_value(full))
                    by {
                    if all_digits(full) {
                        lemma_digits_value_prefix(full, i + 1 - lo);
                    }
                };
                assert(acc * 10 + d > bound) by (nonlinear_arith)
                    requires
                        d > bound || acc > (bound - d) / 10,
                        acc >= 0,
                ;
            }
            return None;
        }
        assert(acc * 10 + d <= bound) by (nonlinear_arith)
            requires
                acc <= (bound - d) / 10,
                d <= bound,
        ;
        acc = acc * 10 + d;
        i += 1;
    }
    assert(v@.subrange(lo as int, hi as int) =~= full);
    Some(acc)
}

/// `s.parse::<u32>().ok()`, for `s` given as characters.
pub fn parse_u32_chars(v: &Vec<char>) -> (r: Option<u32>)
    ensures
        r == parse_u32_spec(v@),
{
    let lo: usize = if v.len() > 0 && v[0] == '+' { 1 } else { 0 };
    proof {
        if lo == 1 {
            assert(v@.subrange(1, v@.len() as int) =~= v@.drop_first());
        } else {
            assert(v@.subrange(0, v@.len() as int) =~= v@);
        }
    }
    if lo == v.len() {
        return None;
    }
    match parse_digits(v, lo, v.len(), 0xffff_ffff) {
        Some(n) => Some(n as u32),
        None => None,
    }
}

/// The decimal character of a digit value.
pub open spec fn digit_char(d: int) -> char {
    (d + 48) as char
}

/// Decimal representation of `n`, without leading zeros.
pub open spec fn decimal(n: nat) -> Seq<char>
    decreases n,
{
    if n < 10 {
        seq![digit_char(n as int)]
    } else {
        decimal(n / 10).push(digit_char((n % 10) as int))
    }
}

/// `n` in decimal, zero-padded on the left to at least `w` characters (`{:0w}`).
pub open spec fn padded(n: nat, w: nat) -> Seq<char> {
    let d = decimal(n);
    if d.len() < w {
        Seq::new((w - d.len()) as nat, |i: int| '0') + d
    } else {
        d
    }
}

/// A signed integer formatted with `{:0w}`: the sign counts towards the width.
pub open spec fn padded_int(n: int, w: nat) -> Seq<char> {
    if n < 0 {
        seq!['-'] + padded((-n) as nat, if w > 0 { (w - 1) as nat } else { 0 })
    } else {
        padded(n as nat, w)
    }
}

pub fn digit_to_char(d: u64) -> (c: char)
    requires
        d < 10,
    ensures
        c == digit_char(d as int),
{
    match d {
        0 => '0',
        1 => '1',
        2 => '2',
        3 => '3',
        4 => '4',
        5 => '5',
        6 => '6',
        7 => '7',
        8 => '8',
        _ => '9',
    }
}

/// Number of decimal digits of `n`.
pub fn decimal_len(n: u64) -> (r: usize)
    ensures
        r == decimal(n as nat).len(),
        1 <= r <= 20,
    decreases n,
{
    if n < 10 {
        1
    } else {
        let k = decimal_len(n / 10);
        assert(k < 20) by {
            reveal_with_fuel(pow10, 20);
            assert(pow10(19) == 10000000000000000000nat);
            lemma_decimal_len_le((n / 10) as nat, 19);
        }
        k + 1
    }
}

pub open spec fn pow10(k: nat) -> nat
    decreases k,
{
    if k == 0 {
        1
    } else {
        10 * pow10((k - 1) as nat)
    }
}

pub proof fn lemma_decimal_len_le(n: nat, k: nat)
    requires
        k >= 1,
        n < pow10(k),
    ensures
        decimal(n).len() <= k,
    decreases n,
{
    if n >= 10 {
        assert(k >= 2) by {
            if k == 1 {
                reveal_with_fuel(pow10, 2);
            }
        };
        let p = pow10((k - 1) as nat);
        assert(n / 10 < p) by (nonlinear_arith)
            requires
                n < 10 * p,
        ;
        lemma_decimal_len_le(n / 10, (k - 1) as nat);
    }
}

/// Appends the decimal representation of `n`.
pub fn push_decimal(s: &mut String, n: u128)
    ensures
        final(s)@ == old(s)@ + decimal(n as nat),
    decreases n,
{
    if n >= 10 {
        push_decimal(s, n / 10);
    }
    s.push(digit_to_char((n % 10) as u64));
    proof {
        if n >= 10 {
            assert(decimal(n as nat) == decimal((n / 10) as nat).push(digit_char((n % 10) as int)));
        }
    }
    assert(s@ =~= old(s)@ + decimal(n as nat));
}

/// Appends `n` formatted as `{:0w}`.
pub fn push_padded(s: &mut String, n: u64, w: usize)
    ensures
        final(s)@ == old(s)@ + padded(n as nat, w as nat),
{
    let len = decimal_len(n);
    let ghost start = s@;
    if len < w {
        let mut k: usize = 0;
        while k < w - len
            invariant
                len < w,
                k <= w - len,
                s@ == start + Seq::new(k as nat, |i: int| '0'),
            decreases w - len - k,
        {
            s.push('0');
            k += 1;
            assert(s@ =~= start + Seq::new(k as nat, |i: int| '0'));
        }
    }
    let ghost mid = s@;
    push_decimal(s, n as u128);
    assert(s@ =~= old(s)@ + padded(n as nat, w as nat));
}

/// Appends `n` formatted as `{:0w}` (sign included in the width).
pub fn push_padded_i64(s: &mut String, n: i64, w: usize)
    ensures
        final(s)@ == old(s)@ + padded_int(n as int, w as nat),
{
    if n < 0 {
        s.push('-');
        let m: u64 = if n == i64::MIN { 0x8000_0000_0000_0000u64 } else { (-n) as u64 };
        let ghost mid = s@;
        push_padded(s, m, if w > 0 { w - 1 } else { 0 });
        assert(s@ =~= old(s)@ + padded_int(n as int, w as nat));
    } else {
        push_padded(s, n as u64, w);
    }
}

pub proof fn lemma_digits_value_lt_pow10(s: Seq<char>)
    requires
        all_digits(s),
    ensures
        digits_value(s) < pow10(s.len()),
    decreases s.len(),
{
    if s.len() > 0 {
        let t = s.drop_last();
        assert(all_digits(t)) by {
            assert forall|i: int| 0 <= i < t.len() implies is_digit(#[trigger] t[i]) by {
                assert(t[i] == s[i]);
            }
        };
        lemma_digits_value_lt_pow10(t);
        assert(is_digit(s[s.len() - 1]));
        let x = digits_value(t);
        let p = pow10(t.len());
        let d = digit_val(s.last());
        assert(x * 10 + d < 10 * p) by (nonlinear_arith)
            requires
                x < p,
                0 <= d < 10,
        ;
    }
}

// ---------------------------------------------------------------------------
// Comparison
// ---------------------------------------------------------------------------

/// Lexicographic order on character sequences by code point, which for UTF-8 text is
/// also the byte order that `str`'s `Ord` uses.
pub open spec fn lex_lt(a: Seq<char>, b: Seq<char>) -> bool
    decreases a.len(),
{
    if a.len() == 0 {
        b.len() > 0
    } else if b.len() == 0 {
        false
    } else if a[0] != b[0] {
        a[0] < b[0]
    } else {
        lex_lt(a.drop_first(), b.drop_first())
    }
}

pub proof fn lemma_lex_lt_skip(a: Seq<char>, b: Seq<char>, i: int)
    requires
        0 <= i <= a.len(),
        i <= b.len(),
        a.take(i) == b.take(i),
    ensures
        lex_lt(a, b) == lex_lt(a.skip(i), b.skip(i)),
    decreases i,
{
    if i > 0 {
        assert(a[0] == a.take(i)[0]);
        assert(b[0] == b.take(i)[0]);
        assert(a.drop_first().take(i - 1) =~= a.take(i).drop_first());
        assert(b.drop_first().take(i - 1) =~= b.take(i).drop_first());
        lemma_lex_lt_skip(a.drop_first(), b.drop_first(), i - 1);
        assert(a.drop_first().skip(i - 1) =~= a.skip(i));
        assert(b.drop_first().skip(i - 1) =~= b.skip(i));
    } else {
        assert(a.skip(0) =~= a);
        assert(b.skip(0) =~= b);
    }
}

/// `a < b` in lexicographic order.
pub fn lex_less(a: &Vec<char>, b: &Vec<char>) -> (r: bool)
    ensures
        r == lex_lt(a@, b@),
{
    let mut i: usize = 0;
    while i < a.len() && i < b.len() && a[i] == b[i]
        invariant
            i <= a.len(),
            i <= b.len(),
            a@.take(i as int) == b@.take(i as int),
        decreases a.len() - i,
    {
        assert(a@.take(i + 1) =~= a@.take(i as int).push(a@[i as int]));
        assert(b@.take(i + 1) =~= b@.take(i as int).push(b@[i as int]));
        i += 1;
    }
    proof {
        lemma_lex_lt_skip(a@, b@, i as int);
    }
    if i == a.len() {
        i < b.len()
    } else if i == b.len() {
        false
    } else {
        a[i] < b[i]
    }
}

/// Equality of two character vectors.
pub fn chars_eq(a: &Vec<char>, b: &Vec<char>) -> (r: bool)
    ensures
        r == (a@ == b@),
{
    if a.len() != b.len() {
        return false;
    }
    let mut i: usize = 0;
    while i < a.len()
        invariant
            i <= a.len() == b.len(),
            forall|j: int| 0 <= j < i ==> a@[j] == b@[j],
        decreases a.len() - i,
    {
        if a[i] != b[i] {
            return false;
        }
        i += 1;
    }
    assert(a@ =~= b@);
    true
}

/// The views of a vector of strings.
pub open spec fn strings_view(v: Seq<String>) -> Seq<Seq<char>> {
    v.map_values(|s: String| s@)
}

// ---------------------------------------------------------------------------
// Lines
// ---------------------------------------------------------------------------

/// Index of the first `'\n'` at or after `i`, or `s.len()` when there is none.
pub open spec fn next_newline(s: Seq<char>, i: int) -> int
    decreases s.len() - i,
{
    if i >= s.len() {
        s.len() as int
    } else if s[i] == '\n' {
        i
    } else {
        next_newline(s, i + 1)
    }
}

/// The `(start, end)` character ranges of the lines of `s` from position `i` on, as
/// `str::lines` yields them: split at `'\n'`, a `'\r'` right before the `'\n'` dropped,
/// no empty line after a final `'\n'`.
pub open spec fn line_ranges_from(s: Seq<char>, i: int) -> Seq<(int, int)>
    decreases s.len() - i,
{
    if i >= s.len() || i < 0 {
        seq![]
    } else {
        let j = next_newline(s, i);
        if j >= s.len() {
            seq![(i, s.len() as int)]
        } else {
            let e = if j > i && s[j - 1] == '\r' { j - 1 } else { j };
            proof {
                lemma_next_newline(s, i);
            }
            seq![(i, e)] + line_ranges_from(s, j + 1)
        }
    }
}

pub open spec fn line_ranges(s: Seq<char>) -> Seq<(int, int)> {
    line_ranges_from(s, 0)
}

/// The lines of `s`, as `str::lines` yields them.
pub open spec fn lines(s: Seq<char>) -> Seq<Seq<char>> {
    line_ranges(s).map_values(|r: (int, int)| s.subrange(r.0, r.1))
}

pub proof fn lemma_next_newline(s: Seq<char>, i: int)
    requires
        0 <= i <= s.len(),
    ensures
        i <= next_newline(s, i) <= s.len(),
        next_newline(s, i) < s.len() ==> s[next_newline(s, i)] == '\n',
        forall|k: int| i <= k < next_newline(s, i) ==> s[k] != '\n',
    decreases s.len() - i,
{
    if i < s.len() && s[i] != '\n' {
        lemma_next_newline(s, i + 1);
    }
}

pub proof fn lemma_line_ranges_bounds(s: Seq<char>, i: int)
    requires
        0 <= i,
    ensures
        forall|k: int|
            0 <= k < line_ranges_from(s, i).len() ==> i <= (#[trigger] line_ranges_from(s, i)[k]).0
                <= line_ranges_from(s, i)[k].1 <= s.len(),
    decreases s.len() - i,
{
    if i < s.len() {
        lemma_next_newline(s, i);
        let j = next_newline(s, i);
        if j < s.len() {
            lemma_line_ranges_bounds(s, j + 1);
            let rest = line_ranges_from(s, j + 1);
            let e = if j > i && s[j - 1] == '\r' { j - 1 } else { j };
            assert forall|k: int|
                0 <= k < line_ranges_from(s, i).len() implies i <= (#[trigger] line_ranges_from(
                s,
                i,
            )[k]).0 <= line_ranges_from(s, i)[k].1 <= s.len() by {
                if k > 0 {
                    assert(line_ranges_from(s, i)[k] == rest[k - 1]);
                }
            }
        }
    }
}

/// Character ranges of the lines of `v`, as `str::lines` would yield them.
pub fn line_ranges_of(v: &Vec<char>) -> (r: Vec<(usize, usize)>)
    ensures
        r@.len() == line_ranges(v@).len(),
        forall|k: int|
            0 <= k < r@.len() ==> (#[trigger] r@[k]).0 == line_ranges(v@)[k].0 && r@[k].1
                == line_ranges(v@)[k].1,
        forall|k: int| 0 <= k < r@.len() ==> (#[trigger] r@[k]).0 <= r@[k].1 <= v@.len(),
{
    let mut out: Vec<(usize, usize)> = Vec::new();
    let mut i: usize = 0;
    proof {
        lemma_line_ranges_bounds(v@, 0);
    }
    while i < v.len()
        invariant
            i <= v.len(),
            out@.len() + line_ranges_from(v@, i as int).len() == line_ranges(v@).len(),
            forall|k: int|
                0 <= k < out@.len() ==> (#[trigger] out@[k]).0 == line_ranges(v@)[k].0
                    && out@[k].1 == line_ranges(v@)[k].1,
            forall|k: int|
                0 <= k < line_ranges_from(v@, i as int).len() ==> #[trigger] line_ranges_from(
                    v@,
                    i as int,
                )[k] == line_ranges(v@)[out@.len() + k],
            forall|k: int| 0 <= k < out@.len() ==> (#[trigger] out@[k]).0 <= out@[k].1 <= v@.len(),
        decreases v.len() - i,
    {
        let ghost gi = i as int;
        proof {
            lemma_next_newline(v@, gi);
            lemma_line_ranges_bounds(v@, gi);
        }
        let mut j = i;
        while j < v.len() && v[j] != '\n'
            invariant
                i <= j <= v.len(),
                next_newline(v@, i as int) == next_newline(v@, j as int),
            decreases v.len() - j,
        {
            j += 1;
        }
        if j >= v.len() {
            assert(line_ranges_from(v@, gi) == seq![(gi, v@.len() as int)]);
            assert(line_ranges_from(v@, gi)[0] == line_ranges(v@)[out@.len() as int]);
            out.push((i, v.len()));
            i = v.len();
            assert(line_ranges_from(v@, i as int).len() == 0);
        } else {
            let e = if j > i && v[j - 1] == '\r' { j - 1 } else { j };
            let ghost rest = line_ranges_from(v@, j + 1);
            assert(line_ranges_from(v@, gi) == seq![(gi, e as int)] + rest);
            assert(line_ranges_from(v@, gi)[0] == line_ranges(v@)[out@.len() as int]);
            let ghost old_len = out@.len();
            out.push((i, e));
            assert forall|k: int| 0 <= k < rest.len() implies #[trigger] rest[k] == line_ranges(
                v@,
            )[out@.len() + k] by {
                assert(line_ranges_from(v@, gi)[k + 1] == rest[k]);
                assert(line_ranges_from(v@, gi)[k + 1] == line_ranges(v@)[old_len + (k + 1)]);
            }
            i = j + 1;
        }
    }
    proof {
        if i as int >= v@.len() {
            assert(line_ranges_from(v@, i as int).len() == 0);
        }
    }
    out
}

// ---------------------------------------------------------------------------
// Trimming
// ---------------------------------------------------------------------------

/// First index in `lo..hi` whose character is not dropped by `p`, else `hi`.
pub open spec fn skip_start(s: Seq<char>, lo: int, hi: int, p: spec_fn(char) -> bool) -> int
    decreases hi - lo,
{
    if lo < hi && p(s[lo]) {
        skip_start(s, lo + 1, hi, p)
    } else {
        lo
    }
}

/// One past the last index in `lo..hi` whose character is not dropped by `p`, else `lo`.
pub open spec fn skip_end(s: Seq<char>, lo: int, hi: int, p: spec_fn(char) -> bool) -> int
    decreases hi - lo,
{
    if lo < hi && p(s[hi - 1]) {
        skip_end(s, lo, hi - 1, p)
    } else {
        hi
    }
}

pub open spec fn ws_pred() -> spec_fn(char) -> bool {
    |c: char| is_ws(c)
}

pub open spec fn char_pred(x: char) -> spec_fn(char) -> bool {
    |c: char| c == x
}

/// `s[lo..hi]` with the characters matching `p` removed from both ends (`trim_matches`).
pub open spec fn trim_by(s: Seq<char>, p: spec_fn(char) -> bool) -> Seq<char> {
    let lo = skip_start(s, 0, s.len() as int, p);
    s.subrange(lo, skip_end(s, lo, s.len() as int, p))
}

/// `str::trim`: whitespace removed from both ends.
pub open spec fn trim(s: Seq<char>) -> Seq<char> {
    trim_by(s, ws_pred())
}

pub proof fn lemma_skip_bounds(s: Seq<char>, lo: int, hi: int, p: spec_fn(char) -> bool)
    requires
        0 <= lo <= hi <= s.len(),
    ensures
        lo <= skip_start(s, lo, hi, p) <= hi,
        lo <= skip_end(s, lo, hi, p) <= hi,
    decreases hi - lo,
{
    if lo < hi {
        lemma_skip_bounds(s, lo + 1, hi, p);
        lemma_skip_bounds(s, lo, hi - 1, p);
    }
}

/// The characters that `trim_range` drops: those equal to `x`, or whitespace.
pub open spec fn trim_pred(x: Option<char>) -> spec_fn(char) -> bool {
    match x {
        Some(c) => char_pred(c),
        None => ws_pred(),
    }
}

fn trimmed_char(c: char, x: Option<char>) -> (r: bool)
    ensures
        r == trim_pred(x)(c),
{
    match x {
        Some(y) => c == y,
        None => is_whitespace(c),
    }
}

/// Trims characters equal to `x` (or whitespace when `x` is `None`) from both ends of
/// `v[lo..hi]`, returning the remaining range.
pub fn trim_range(v: &Vec<char>, lo: usize, hi: usize, x: Option<char>) -> (r: (usize, usize))
    requires
        lo <= hi <= v.len(),
    ensures
        ({
            let p = trim_pred(x);
            let a = skip_start(v@, lo as int, hi as int, p);
            r.0 == a && r.1 == skip_end(v@, a, hi as int, p)
        }),
        lo <= r.0 <= r.1 <= hi,
{
    let ghost p = trim_pred(x);
    let mut a = lo;
    while a < hi && trimmed_char(v[a], x)
        invariant
            lo <= a <= hi <= v.len(),
            p == trim_pred(x),
            skip_start(v@, lo as int, hi as int, p) == skip_start(v@, a as int, hi as int, p),
        decreases hi - a,
    {
        assert(p(v@[a as int]));
        a += 1;
    }
    let mut b = hi;
    while b > a && trimmed_char(v[b - 1], x)
        invariant
            lo <= a <= b <= hi <= v.len(),
            p == trim_pred(x),
            a == skip_start(v@, lo as int, hi as int, p),
            skip_end(v@, a as int, hi as int, p) == skip_end(v@, a as int, b as int, p),
        decreases b - a,
    {
        assert(p(v@[b - 1]));
        b -= 1;
    }
    (a, b)
}

/// `t.trim()` as an owned string.
pub fn trim_str(t: &str) -> (r: String)
    ensures
        r@ == trim(t@),
{
    let v = chars_of(t);
    let (a, b) = trim_range(&v, 0, v.len(), None);
    string_of_range(&v, a, b)
}

pub proof fn lemma_skip_sub(s: Seq<char>, lo: int, hi: int, a: int, b: int, p: spec_fn(char) -> bool)
    requires
        0 <= lo <= a <= b <= hi <= s.len(),
    ensures
        skip_start(s.subrange(lo, hi), a - lo, b - lo, p) == skip_start(s, a, b, p) - lo,
        skip_end(s.subrange(lo, hi), a - lo, b - lo, p) == skip_end(s, a, b, p) - lo,
    decreases b - a,
{
    if a < b {
        assert(s.subrange(lo, hi)[a - lo] == s[a]);
        assert(s.subrange(lo, hi)[b - 1 - lo] == s[b - 1]);
        lemma_skip_sub(s, lo, hi, a + 1, b, p);
        lemma_skip_sub(s, lo, hi, a, b - 1, p);
    }
}

/// Trimming a slice of `s` is slicing `s` at the trimmed bounds.
pub proof fn lemma_trim_sub(s: Seq<char>, lo: int, hi: int, p: spec_fn(char) -> bool)
    requires
        0 <= lo <= hi <= s.len(),
    ensures
        ({
            let a = skip_start(s, lo, hi, p);
            let b = skip_end(s, a, hi, p);
            &&& lo <= a <= b <= hi
            &&& trim_by(s.subrange(lo, hi), p) == s.subrange(a, b)
        }),
{
    let t = s.subrange(lo, hi);
    lemma_skip_bounds(s, lo, hi, p);
    let a = skip_start(s, lo, hi, p);
    lemma_skip_bounds(s, a, hi, p);
    lemma_skip_sub(s, lo, hi, lo, hi, p);
    lemma_skip_sub(s, lo, hi, a, hi, p);
    assert(t.subrange(a - lo, skip_end(s, a, hi, p) - lo) =~= s.subrange(a, skip_end(s, a, hi, p)));
}

// ---------------------------------------------------------------------------
// Joining
// ---------------------------------------------------------------------------

/// `ws.join(sep)`.
pub open spec fn join_with(ws: Seq<Seq<char>>, sep: Seq<char>) -> Seq<char>
    decreases ws.len(),
{
    if ws.len() == 0 {
        seq![]
    } else if ws.len() == 1 {
        ws[0]
    } else {
        join_with(ws.drop_last(), sep) + sep + ws.last()
    }
}

/// The pieces of `v` that the ranges `rs[lo..hi]` select.
pub open spec fn pieces(v: Seq<char>, rs: Seq<(usize, usize)>, lo: int, hi: int) -> Seq<Seq<char>> {
    rs.subrange(lo, hi).map_values(|r: (usize, usize)| v.subrange(r.0 as int, r.1 as int))
}

/// Ranges that lie within `v`.
pub open spec fn ranges_within(rs: Seq<(usize, usize)>, n: int) -> bool {
    forall|k: int| 0 <= k < rs.len() ==> (#[trigger] rs[k]).0 <= rs[k].1 <= n
}

/// The pieces `rs[lo..hi]` of `v`, joined with `sep`.
pub fn join_ranges(v: &Vec<char>, rs: &Vec<(usize, usize)>, lo: usize, hi: usize, sep: &str) -> (r:
    String)
    requires
        lo <= hi <= rs.len(),
        ranges_within(rs@, v@.len() as int),
    ensures
        r@ == join_with(pieces(v@, rs@, lo as int, hi as int), sep@),
{
    let mut out = String::new();
    let sv = chars_of(sep);
    let mut k = lo;
    while k < hi
        invariant
            lo <= k <= hi <= rs.len(),
            ranges_within(rs@, v@.len() as int),
            sv@ == sep@,
            out@ == join_with(pieces(v@, rs@, lo as int, k as int), sep@),
        decreases hi - k,
    {
        let ghost prev = pieces(v@, rs@, lo as int, k as int);
        let ghost next = pieces(v@, rs@, lo as int, k + 1);
        assert(next.drop_last() =~= prev);
        assert(next.last() == v@.subrange(rs@[k as int].0 as int, rs@[k as int].1 as int));
        if k > lo {
            push_range(&mut out, &sv, 0, sv.len());
            assert(sv@.subrange(0, sv@.len() as int) =~= sv@);
        }
        let (a, b) = rs[k];
        push_range(&mut out, v, a, b);
        proof {
            if k == lo {
                assert(next.len() == 1);
                assert(out@ =~= next[0]);
            }
        }
        k += 1;
    }
    out
}

// ---------------------------------------------------------------------------
// UTF-8 offsets
// ---------------------------------------------------------------------------

/// Byte offset in the UTF-8 encoding of `s` at which character `i` starts.
pub open spec fn byte_offset(s: Seq<char>, i: int) -> nat {
    vstd::utf8::encode_utf8(s.take(i)).len()
}

pub proof fn lemma_encode_utf8_concat(a: Seq<char>, b: Seq<char>)
    ensures
        vstd::utf8::encode_utf8(a + b) == vstd::utf8::encode_utf8(a) + vstd::utf8::encode_utf8(b),
    decreases a.len(),
{
    if a.len() > 0 {
        assert((a + b).drop_first() =~= a.drop_first() + b);
        assert((a + b)[0] == a[0]);
        lemma_encode_utf8_concat(a.drop_first(), b);
        assert(vstd::utf8::encode_utf8(a + b) =~= vstd::utf8::encode_utf8(a)
            + vstd::utf8::encode_utf8(b));
    } else {
        assert(a + b =~= b);
        assert(vstd::utf8::encode_utf8(a) =~= seq![]);
        assert(vstd::utf8::encode_utf8(a) + vstd::utf8::encode_utf8(b) =~= vstd::utf8::encode_utf8(b));
    }
}

/// Number of bytes that `c` takes in UTF-8.
pub fn char_width(c: char) -> (r: usize)
    ensures
        r == vstd::utf8::encode_scalar(c as u32).len(),
        1 <= r <= 4,
{
    proof {
        vstd::utf8::char_is_scalar(c);
    }
    let u = c as u32;
    if u <= 0x7F {
        1
    } else if u <= 0x7FF {
        2
    } else if u <= 0xFFFF {
        3
    } else {
        4
    }
}

/// `byte_offset(v, i)` for every `i` in `0..=v.len()`.
pub fn byte_offsets(v: &Vec<char>, total: usize) -> (r: Vec<usize>)
    requires
        total == vstd::utf8::encode_utf8(v@).len(),
    ensures
        r@.len() == v@.len() + 1,
        forall|i: int| 0 <= i <= v@.len() ==> #[trigger] r@[i] == byte_offset(v@, i),
{
    let mut out: Vec<usize> = Vec::new();
    out.push(0);
    assert(v@.take(0) =~= seq![]);
    let mut i: usize = 0;
    while i < v.len()
        invariant
            i <= v.len(),
            total == vstd::utf8::encode_utf8(v@).len(),
            out@.len() == i + 1,
            forall|k: int| 0 <= k <= i ==> #[trigger] out@[k] == byte_offset(v@, k),
        decreases v.len() - i,
    {
        let ghost a = v@.take(i + 1);
        proof {
            assert(a =~= v@.take(i as int) + seq![v@[i as int]]);
            lemma_encode_utf8_concat(v@.take(i as int), seq![v@[i as int]]);
            assert(vstd::utf8::encode_utf8(seq![v@[i as int]]) =~= vstd::utf8::encode_scalar(
                v@[i as int] as u32,
            ) + vstd::utf8::encode_utf8(seq![v@[i as int]].drop_first()));
            assert(seq![v@[i as int]].drop_first() =~= seq![]);
            assert(v@ =~= a + v@.skip(i + 1));
            lemma_encode_utf8_concat(a, v@.skip(i + 1));
        }
        let w = char_width(v[i]);
        let next = out[i] + w;
        out.push(next);
        i += 1;
    }
    out
}

// ---------------------------------------------------------------------------
// Substrings and case
// ---------------------------------------------------------------------------

/// `t` occurs in `s` starting at position `i`.
pub open spec fn occurs_at(s: Seq<char>, t: Seq<char>, i: int) -> bool {
    0 <= i && i + t.len() <= s.len() && s.subrange(i, i + t.len()) == t
}

/// `s.contains(t)` for a string pattern `t`.
pub open spec fn contains_seq(s: Seq<char>, t: Seq<char>) -> bool {
    exists|i: int| occurs_at(s, t, i)
}

pub fn occurs_at_exec(s: &Vec<char>, t: &Vec<char>, i: usize) -> (r: bool)
    requires
        i + t.len() <= s.len(),
    ensures
        r == occurs_at(s@, t@, i as int),
{
    let mut k: usize = 0;
    while k < t.len()
        invariant
            k <= t.len(),
            i + t.len() <= s.len(),
            forall|j: int| 0 <= j < k ==> s@[i + j] == t@[j],
        decreases t.len() - k,
    {
        if s[i + k] != t[k] {
            assert(s@.subrange(i as int, i + t@.len())[k as int] != t@[k as int]);
            return false;
        }
        k += 1;
    }
    assert(s@.subrange(i as int, i + t@.len()) =~= t@);
    true
}

/// Whether `t` occurs in `s`.
pub fn contains_chars(s: &Vec<char>, t: &Vec<char>) -> (r: bool)
    ensures
        r == contains_seq(s@, t@),
{
    if t.len() > s.len() {
        assert forall|i: int| !occurs_at(s@, t@, i) by {}
        return false;
    }
    if t.len() == 0 {
        assert(s@.subrange(0, 0) =~= t@);
        assert(occurs_at(s@, t@, 0));
        return true;
    }
    let mut i: usize = 0;
    while i <= s.len() - t.len()
        invariant
            1 <= t.len() <= s.len(),
            i <= s.len() - t.len() + 1,
            forall|j: int| 0 <= j < i ==> !occurs_at(s@, t@, j),
        decreases s.len() - t.len() + 1 - i,
    {
        if occurs_at_exec(s, t, i) {
            return true;
        }
        i += 1;
    }
    assert forall|j: int| !occurs_at(s@, t@, j) by {
        if 0 <= j < i {
        }
    }
    false
}

/// The result of `str::to_lowercase`, which maps each character by the Unicode lowercase
/// mapping (a table too large to restate here).
pub uninterp spec fn lowercase(s: Seq<char>) -> Seq<char>;

/// `str::to_lowercase`: its result is the named `lowercase` of the text.
#[verifier::external_body]
pub(crate) fn to_lowercase(s: &str) -> (r: String)
    ensures
        r@ == lowercase(s@),
{
    s.to_lowercase()
}

// ---------------------------------------------------------------------------
// Separated lists
// ---------------------------------------------------------------------------

/// Index of the first `sep` at or after `i`, else `s.len()`.
pub open spec fn next_sep(s: Seq<char>, sep: char, i: int) -> int
    decreases s.len() - i,
{
    if i >= s.len() {
        s.len() as int
    } else if s[i] == sep {
        i
    } else {
        next_sep(s, sep, i + 1)
    }
}

pub proof fn lemma_next_sep(s: Seq<char>, sep: char, i: int)
    requires
        0 <= i <= s.len(),
    ensures
        i <= next_sep(s, sep, i) <= s.len(),
    decreases s.len() - i,
{
    if i < s.len() && s[i] != sep {
        lemma_next_sep(s, sep, i + 1);
    }
}

/// The non-empty trimmed pieces of `s[i..]` split at `sep`
/// (`split(sep).map(trim).filter(non-empty)`).
pub open spec fn trimmed_items_from(s: Seq<char>, sep: char, i: int) -> Seq<Seq<char>>
    decreases s.len() + 1 - i,
{
    if i < 0 || i > s.len() {
        seq![]
    } else {
        let j = next_sep(s, sep, i);
        proof {
            lemma_next_sep(s, sep, i);
        }
        let piece = trim(s.subrange(i, j));
        let rest = if j >= s.len() {
            seq![]
        } else {
            trimmed_items_from(s, sep, j + 1)
        };
        if piece.len() > 0 {
            seq![piece] + rest
        } else {
            rest
        }
    }
}

pub open spec fn trimmed_items(s: Seq<char>, sep: char) -> Seq<Seq<char>> {
    trimmed_items_from(s, sep, 0)
}

/// `s.split(sep).map(|x| x.trim().to_string()).filter(|x| !x.is_empty()).collect()`.
pub fn split_trimmed(s: &str, sep: char) -> (r: Vec<String>)
    ensures
        strings_view(r@) == trimmed_items(s@, sep),
{
    let v = chars_of(s);
    let mut out: Vec<String> = Vec::new();
    let mut i: usize = 0;
    loop
        invariant
            i <= v.len(),
            v@ == s@,
            strings_view(out@) + trimmed_items_from(v@, sep, i as int) == trimmed_items(s@, sep),
        decreases v.len() + 1 - i,
    {
        let mut j = i;
        while j < v.len() && v[j] != sep
            invariant
                i <= j <= v.len(),
                next_sep(v@, sep, i as int) == next_sep(v@, sep, j as int),
            decreases v.len() - j,
        {
            j += 1;
        }
        let (a, b) = trim_range(&v, i, j, None);
        proof {
            lemma_trim_sub(v@, i as int, j as int, ws_pred());
        }
        let ghost before = out@;
        let ghost rest = if j >= v.len() {
            seq![]
        } else {
            trimmed_items_from(v@, sep, j + 1)
        };
        if a < b {
            let item = string_of_range(&v, a, b);
            out.push(item);
            assert(strings_view(out@) =~= strings_view(before).push(item@));
            assert(strings_view(out@) + rest =~= strings_view(before) + trimmed_items_from(
                v@,
                sep,
                i as int,
            ));
        } else {
            assert(strings_view(out@) + rest =~= strings_view(before) + trimmed_items_from(
                v@,
                sep,
                i as int,
            ));
        }
        if j >= v.len() {
            assert(strings_view(out@) =~= trimmed_items(s@, sep));
            return out;
        }
        i = j + 1;
    }
}


/// `lex_lt` is irreflexive.
pub proof fn lemma_lex_irrefl(a: Seq<char>)
    ensures
        !lex_lt(a, a),
    decreases a.len(),
{
    if a.len() > 0 {
        lemma_lex_irrefl(a.drop_first());
    }
}

/// `lex_lt` is transitive.
pub proof fn lemma_lex_trans(a: Seq<char>, b: Seq<char>, c: Seq<char>)
    requires
        lex_lt(a, b),
        lex_lt(b, c),
    ensures
        lex_lt(a, c),
    decreases a.len(),
{
    if a.len() > 0 && b.len() > 0 && c.len() > 0 && a[0] == b[0] && b[0] == c[0] {
        lemma_lex_trans(a.drop_first(), b.drop_first(), c.drop_first());
    }
}

/// Two different sequences are ordered one way or the other.
pub proof fn lemma_lex_total(a: Seq<char>, b: Seq<char>)
    requires
        a != b,
    ensures
        lex_lt(a, b) || lex_lt(b, a),
    decreases a.len(),
{
    if a.len() > 0 && b.len() > 0 && a[0] == b[0] {
        if a.drop_first() == b.drop_first() {
            assert(a =~= seq![a[0]] + a.drop_first());
            assert(b =~= seq![b[0]] + b.drop_first());
        }
        lemma_lex_total(a.drop_first(), b.drop_first());
    } else if a.len() == 0 && b.len() == 0 {
        assert(a =~= b);
    }
}


// ---------------------------------------------------------------------------
// Fixed-width decimal digits
// ---------------------------------------------------------------------------

/// The last `w` decimal digits of `n`, leading zeros included.
pub open spec fn fixed_digits(n: nat, w: nat) -> Seq<char>
    decreases w,
{
    if w == 0 {
        seq![]
    } else {
        fixed_digits(n / 10, (w - 1) as nat).push(digit_char((n % 10) as int))
    }
}

pub proof fn lemma_pow10_pos(k: nat)
    ensures
        pow10(k) > 0,
    decreases k,
{
    if k > 0 {
        lemma_pow10_pos((k - 1) as nat);
    }
}

proof fn lemma_pow10_mono(a: nat, b: nat)
    requires
        a <= b,
    ensures
        pow10(a) <= pow10(b),
    decreases b,
{
    if a < b {
        lemma_pow10_mono(a, (b - 1) as nat);
        lemma_pow10_pos((b - 1) as nat);
    }
}

/// `n` in decimal is a non-empty run of digits that reads back as `n`.
pub proof fn lemma_decimal_digits(n: nat)
    ensures
        decimal(n).len() >= 1,
        all_digits(decimal(n)),
        digits_value(decimal(n)) == n,
{
    lemma_decimal_fixed(n);
    let l = decimal(n).len();
    lemma_fixed_digits_value(n, l);
    vstd::arithmetic::div_mod::lemma_small_mod(n, pow10(l));
    if n < 10 {
        assert(decimal(n).len() == 1);
    } else {
        assert(decimal(n).len() >= 1);
    }
}

/// `n` needs more than `k` decimal digits once it reaches `10^k`.
pub proof fn lemma_decimal_len_gt(n: nat, k: nat)
    requires
        n >= pow10(k),
    ensures
        decimal(n).len() > k,
{
    lemma_decimal_fixed(n);
    if decimal(n).len() <= k {
        lemma_pow10_mono(decimal(n).len(), k);
    }
}

/// Reading the last `w` digits of `n` gives `n` modulo `10^w`.
pub proof fn lemma_fixed_digits_value(n: nat, w: nat)
    ensures
        fixed_digits(n, w).len() == w,
        all_digits(fixed_digits(n, w)),
        digits_value(fixed_digits(n, w)) == n % pow10(w),
    decreases w,
{
    if w > 0 {
        lemma_fixed_digits_value(n / 10, (w - 1) as nat);
        let t = fixed_digits(n / 10, (w - 1) as nat);
        let s = fixed_digits(n, w);
        assert(s.drop_last() =~= t);
        assert(all_digits(s)) by {
            assert forall|i: int| 0 <= i < s.len() implies is_digit(#[trigger] s[i]) by {
                if i < t.len() {
                    assert(s[i] == t[i]);
                }
            }
        }
        let p = pow10((w - 1) as nat);
        lemma_pow10_pos((w - 1) as nat);
        assert(digit_val(s.last()) == n % 10);
        vstd::arithmetic::div_mod::lemma_mod_breakdown(n as int, 10, p as int);
        assert(digits_value(s) == digits_value(t) * 10 + n % 10);
        assert(10 * p == pow10(w));
    } else {
        assert(n % 1 == 0);
    }
}

/// A string of digits is the fixed-width digits of its value.
pub proof fn lemma_digits_fixed(t: Seq<char>)
    requires
        all_digits(t),
    ensures
        fixed_digits(digits_value(t), t.len()) == t,
    decreases t.len(),
{
    if t.len() > 0 {
        let u = t.drop_last();
        assert(all_digits(u)) by {
            assert forall|i: int| 0 <= i < u.len() implies is_digit(#[trigger] u[i]) by {
                assert(u[i] == t[i]);
            }
        }
        lemma_digits_fixed(u);
        let v = digits_value(t);
        let c = t.last();
        assert(is_digit(c));
        assert(v / 10 == digits_value(u) && v % 10 == digit_val(c));
        assert(digit_char(digit_val(c)) == c);
        assert(fixed_digits(v, t.len()) =~= t);
    }
}

proof fn lemma_fixed_zero(w: nat)
    ensures
        fixed_digits(0, w) == Seq::new(w, |i: int| '0'),
    decreases w,
{
    if w > 0 {
        lemma_fixed_zero((w - 1) as nat);
        assert(fixed_digits(0, w) =~= Seq::new(w, |i: int| '0'));
    }
}

/// Widening fixed-width digits adds leading zeros.
proof fn lemma_fixed_widen(n: nat, k: nat, w: nat)
    requires
        k <= w,
        n < pow10(k),
    ensures
        fixed_digits(n, w) == Seq::new((w - k) as nat, |i: int| '0') + fixed_digits(n, k),
    decreases k,
{
    if k == 0 {
        lemma_fixed_zero(w);
        assert(fixed_digits(n, 0) =~= seq![]);
        assert(fixed_digits(n, w) =~= Seq::new((w - k) as nat, |i: int| '0') + fixed_digits(n, k));
    } else {
        let p = pow10((k - 1) as nat);
        assert(n / 10 < p) by (nonlinear_arith)
            requires
                n < 10 * p,
        ;
        lemma_fixed_widen(n / 10, (k - 1) as nat, (w - 1) as nat);
        assert(fixed_digits(n, w) =~= Seq::new((w - k) as nat, |i: int| '0') + fixed_digits(n, k));
    }
}

proof fn lemma_decimal_fixed(n: nat)
    ensures
        decimal(n) == fixed_digits(n, decimal(n).len()),
        n < pow10(decimal(n).len()),
    decreases n,
{
    if n < 10 {
        assert(fixed_digits(n, 1) =~= seq![digit_char(n as int)]) by {
            assert(n / 10 == 0 && n % 10 == n);
            assert(fixed_digits(n / 10, 0) =~= seq![]);
        }
        reveal_with_fuel(pow10, 2);
    } else {
        lemma_decimal_fixed(n / 10);
        let l = decimal(n / 10).len();
        assert(decimal(n).len() == l + 1);
        assert(decimal(n) =~= fixed_digits(n, decimal(n).len()));
        let p = pow10(l);
        assert(n < 10 * p) by (nonlinear_arith)
            requires
                n / 10 < p,
        ;
    }
}

/// Zero-padded to width `w`, a number below `10^w` is its `w` last digits.
pub proof fn lemma_padded_fixed(n: nat, w: nat)
    requires
        w >= 1,
        n < pow10(w),
    ensures
        padded(n, w) == fixed_digits(n, w),
{
    lemma_decimal_len_le(n, w);
    lemma_decimal_fixed(n);
    let l = decimal(n).len();
    lemma_fixed_widen(n, l, w);
    if l < w {
        assert(padded(n, w) =~= fixed_digits(n, w));
    } else {
        assert(Seq::new((w - l) as nat, |i: int| '0') =~= Seq::<char>::empty());
        assert(fixed_digits(n, w) =~= fixed_digits(n, l));
    }
}

} // verus!

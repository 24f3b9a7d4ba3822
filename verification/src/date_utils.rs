//! Calendar dates written as `YYYY-MM-DD`, parsed and stepped without a date library.
//! Dates compare lexicographically, which for this fixed format is their calendar order.
use vstd::prelude::*;

use crate::text::{
    all_digits, chars_of, digits_value, lemma_digits_value_lt_pow10, lex_less, lex_lt, padded,
    parse_digits, parse_u32_chars, parse_u32_spec, pow10, push_padded, string_of_range,
    strings_view, chars_eq, fixed_digits, lemma_digits_fixed, lemma_fixed_digits_value,
    lemma_padded_fixed, lemma_decimal_len_gt,
};

verus! {

/// Gregorian leap-year rule.
pub open spec fn spec_is_leap_year(year: int) -> bool {
    (year % 4 == 0 && year % 100 != 0) || year % 400 == 0
}

/// Days in `month` of `year`; `0` for a month outside `1..=12`.
pub open spec fn spec_days_in_month(year: int, month: int) -> int {
    if month == 1 || month == 3 || month == 5 || month == 7 || month == 8 || month == 10 || month
        == 12 {
        31
    } else if month == 4 || month == 6 || month == 9 || month == 11 {
        30
    } else if month == 2 {
        if spec_is_leap_year(year) {
            29
        } else {
            28
        }
    } else {
        0
    }
}

/// Check if a year is a leap year.
pub fn is_leap_year(year: u32) -> (r: bool)
    ensures
        r == spec_is_leap_year(year as int),
{
    (year % 4 == 0 && year % 100 != 0) || year % 400 == 0
}

pub fn days_in_month_num(year: u32, month: u32) -> (r: u32)
    ensures
        r == spec_days_in_month(year as int, month as int),
{
    if month == 1 || month == 3 || month == 5 || month == 7 || month == 8 || month == 10 || month
        == 12 {
        31
    } else if month == 4 || month == 6 || month == 9 || month == 11 {
        30
    } else if month == 2 {
        if is_leap_year(year) {
            29
        } else {
            28
        }
    } else {
        0
    }
}

/// Get the number of days in a month; the year is given as text, and text that is not a
/// `u32` counts as the year 2000. Accounts for leap years.
pub fn days_in_month(year_str: &str, month: u32) -> (r: u32)
    ensures
        r == spec_days_in_month(
            match parse_u32_spec(year_str@) {
                Some(y) => y as int,
                None => 2000,
            },
            month as int,
        ),
{
    let v = chars_of(year_str);
    let year = match parse_u32_chars(&v) {
        Some(y) => y,
        None => 2000,
    };
    days_in_month_num(year, month)
}

// ---------------------------------------------------------------------------
// YYYY-MM-DD
// ---------------------------------------------------------------------------

pub open spec fn date_year(s: Seq<char>) -> nat {
    digits_value(s.subrange(0, 4))
}

pub open spec fn date_month(s: Seq<char>) -> nat {
    digits_value(s.subrange(5, 7))
}

pub open spec fn date_day(s: Seq<char>) -> nat {
    digits_value(s.subrange(8, 10))
}

/// `s` is a real calendar date written as `YYYY-MM-DD`.
pub open spec fn is_valid_date(s: Seq<char>) -> bool {
    &&& s.len() == 10
    &&& s[4] == '-'
    &&& s[7] == '-'
    &&& all_digits(s.subrange(0, 4))
    &&& all_digits(s.subrange(5, 7))
    &&& all_digits(s.subrange(8, 10))
    &&& 1 <= date_month(s) <= 12
    &&& 1 <= date_day(s) <= spec_days_in_month(date_year(s) as int, date_month(s) as int)
}

/// A date formatted as `{:04}-{:02}-{:02}`.
pub open spec fn fmt_date(y: nat, m: nat, d: nat) -> Seq<char> {
    padded(y, 4) + seq!['-'] + padded(m, 2) + seq!['-'] + padded(d, 2)
}

/// The day after a valid date, formatted like the input.
pub open spec fn next_date(s: Seq<char>) -> Seq<char> {
    let y = date_year(s);
    let m = date_month(s);
    let d = date_day(s);
    if d < spec_days_in_month(y as int, m as int) {
        fmt_date(y, m, d + 1)
    } else if m < 12 {
        fmt_date(y, m + 1, 1)
    } else {
        fmt_date(y + 1, 1, 1)
    }
}

/// The components of a date already known to be valid, checked piecewise.
fn date_parts(v: &Vec<char>) -> (r: Option<(u32, u32, u32)>)
    ensures
        r is Some <==> is_valid_date(v@),
        r matches Some((y, m, d)) ==> y == date_year(v@) && m == date_month(v@) && d == date_day(v@)
            && y <= 9999 && m <= 12 && d <= 31,
{
    if v.len() != 10 || v[4] != '-' || v[7] != '-' {
        return None;
    }
    let ys = parse_digits(v, 0, 4, 0xffff_ffff);
    let ms = parse_digits(v, 5, 7, 0xffff_ffff);
    let ds = parse_digits(v, 8, 10, 0xffff_ffff);
    proof {
        if all_digits(v@.subrange(0, 4)) {
            lemma_digits_value_lt_pow10(v@.subrange(0, 4));
        }
        if all_digits(v@.subrange(5, 7)) {
            lemma_digits_value_lt_pow10(v@.subrange(5, 7));
        }
        if all_digits(v@.subrange(8, 10)) {
            lemma_digits_value_lt_pow10(v@.subrange(8, 10));
        }
        reveal_with_fuel(pow10, 5);
    }
    match (ys, ms, ds) {
        (Some(y), Some(m), Some(d)) => {
            let y = y as u32;
            let m = m as u32;
            let d = d as u32;
            if m < 1 || m > 12 || d < 1 || d > 31 {
                return None;
            }
            if d > days_in_month_num(y, m) {
                return None;
            }
            Some((y, m, d))
        },
        _ => None,
    }
}

/// Validate a date string is in YYYY-MM-DD format
/// Returns true if valid, false otherwise
pub fn validate_date(date_str: &str) -> (r: bool)
    ensures
        r == is_valid_date(date_str@),
{
    let v = chars_of(date_str);
    date_parts(&v).is_some()
}

/// Parse a date string into (year, month, day) components
/// Returns None if the date is invalid
pub fn parse_date(date_str: &str) -> (r: Option<(u32, u32, u32)>)
    ensures
        r is Some <==> is_valid_date(date_str@),
        r matches Some((y, m, d)) ==> y == date_year(date_str@) && m == date_month(date_str@) && d
            == date_day(date_str@),
{
    let v = chars_of(date_str);
    date_parts(&v)
}

fn push_date(s: &mut String, y: u64, m: u64, d: u64)
    ensures
        final(s)@ == old(s)@ + fmt_date(y as nat, m as nat, d as nat),
{
    push_padded(s, y, 4);
    s.push('-');
    push_padded(s, m, 2);
    s.push('-');
    push_padded(s, d, 2);
    assert(s@ =~= old(s)@ + fmt_date(y as nat, m as nat, d as nat));
}

fn format_date(y: u64, m: u64, d: u64) -> (r: String)
    ensures
        r@ == fmt_date(y as nat, m as nat, d as nat),
{
    let mut s = String::new();
    push_date(&mut s, y, m, d);
    assert(s@ =~= fmt_date(y as nat, m as nat, d as nat));
    s
}

fn next_date_chars(v: &Vec<char>) -> (r: Option<Vec<char>>)
    ensures
        r is Some <==> is_valid_date(v@),
        r matches Some(n) ==> n@ == next_date(v@),
{
    match date_parts(v) {
        None => None,
        Some((year, month, day)) => {
            let max_days = days_in_month_num(year, month);
            let s = if day < max_days {
                format_date(year as u64, month as u64, day as u64 + 1)
            } else if month < 12 {
                format_date(year as u64, month as u64 + 1, 1)
            } else {
                format_date(year as u64 + 1, 1, 1)
            };
            Some(chars_of(s.as_str()))
        },
    }
}

/// Increment a date by one day
/// Returns None if date is invalid
pub fn increment_date(date_str: &str) -> (r: Option<String>)
    ensures
        r is Some <==> is_valid_date(date_str@),
        r matches Some(n) ==> n@ == next_date(date_str@),
{
    let v = chars_of(date_str);
    match next_date_chars(&v) {
        None => None,
        Some(n) => Some(string_of_range(&n, 0, n.len())),
    }
}

/// The dates listed from `cur` on, one day apart, until `end` is listed, `fuel` dates are
/// listed, or a date that is not valid is listed.
pub open spec fn range_from(cur: Seq<char>, end: Seq<char>, fuel: nat) -> Seq<Seq<char>>
    decreases fuel,
{
    if fuel == 0 {
        seq![]
    } else if cur == end || fuel == 1 || !is_valid_date(cur) {
        seq![cur]
    } else {
        seq![cur] + range_from(next_date(cur), end, (fuel - 1) as nat)
    }
}

/// A number that orders valid dates as the calendar does (months counted as 31 days).
pub open spec fn date_ord(s: Seq<char>) -> int {
    (date_year(s) * 372 + date_month(s) * 31 + date_day(s)) as int
}

/// What `date_range(start, end)` lists: from `start`, one day after the other, to `end`
/// (there are never more dates than `date_ord` steps between them).
pub open spec fn spec_date_range(start: Seq<char>, end: Seq<char>) -> Seq<Seq<char>> {
    if !is_valid_date(start) || !is_valid_date(end) || date_ord(end) < date_ord(start) {
        seq![]
    } else {
        range_from(start, end, (date_ord(end) - date_ord(start) + 1) as nat)
    }
}

/// Generate a range of dates between start and end (inclusive)
/// Returns empty vector if dates are invalid or start > end
pub fn date_range(start: &str, end: &str) -> (r: Vec<String>)
    ensures
        strings_view(r@) == spec_date_range(start@, end@),
{
    let sv = chars_of(start);
    let ev = chars_of(end);
    let (sy, sm, sd) = match date_parts(&sv) {
        Some(p) => p,
        None => {
            assert(strings_view(Seq::<String>::empty()) =~= seq![]);
            return Vec::new();
        },
    };
    let (ey, em, ed) = match date_parts(&ev) {
        Some(p) => p,
        None => {
            assert(strings_view(Seq::<String>::empty()) =~= seq![]);
            return Vec::new();
        },
    };
    let so: u64 = sy as u64 * 372 + sm as u64 * 31 + sd as u64;
    let eo: u64 = ey as u64 * 372 + em as u64 * 31 + ed as u64;
    if eo < so {
        assert(strings_view(Seq::<String>::empty()) =~= seq![]);
        return Vec::new();
    }
    let total: usize = (eo - so + 1) as usize;
    let ghost total_n = (date_ord(ev@) - date_ord(sv@) + 1) as nat;
    assert(total == total_n);
    let mut dates: Vec<String> = Vec::new();
    let mut current = sv;
    let mut fuel: usize = total;
    loop
        invariant
            1 <= fuel <= total,
            total == total_n,
            dates@.len() + fuel == total,
            is_valid_date(sv@) && is_valid_date(ev@),
            start@ == sv@,
            end@ == ev@,
            spec_date_range(start@, end@) == range_from(sv@, ev@, total_n),
            strings_view(dates@) + range_from(current@, ev@, fuel as nat) == range_from(
                sv@,
                ev@,
                total_n,
            ),
        decreases fuel,
    {
        let ghost before = dates@;
        let item = string_of_range(&current, 0, current.len());
        assert(current@.subrange(0, current@.len() as int) =~= current@);
        dates.push(item);
        assert(dates@ == before.push(item));
        assert(strings_view(dates@) =~= strings_view(before).push(current@));
        if chars_eq(&current, &ev) {
            assert(strings_view(dates@) =~= range_from(sv@, ev@, total_n));
            return dates;
        }
        match next_date_chars(&current) {
            Some(n) => {
                if fuel == 1 {
                    assert(strings_view(dates@) =~= range_from(sv@, ev@, total_n));
                    return dates;
                }
                assert(range_from(current@, ev@, fuel as nat) == seq![current@] + range_from(
                    n@,
                    ev@,
                    (fuel - 1) as nat,
                ));
                assert(strings_view(dates@) + range_from(n@, ev@, (fuel - 1) as nat) =~= strings_view(
                    before,
                ) + range_from(current@, ev@, fuel as nat));
                current = n;
                fuel -= 1;
            },
            None => {
                assert(strings_view(dates@) =~= range_from(sv@, ev@, total_n));
                return dates;
            },
        }
    }
}

// ---------------------------------------------------------------------------
// Today
// ---------------------------------------------------------------------------

/// Days in each month from `m` to December of a year whose month lengths are those of `y`.
pub open spec fn days_left_in_year(y: int, m: int) -> int
    decreases 13 - m,
{
    if m > 12 {
        0
    } else {
        spec_days_in_month(y, m) + days_left_in_year(y, m + 1)
    }
}

pub proof fn lemma_year_length(y: int)
    ensures
        days_left_in_year(y, 1) == if spec_is_leap_year(y) { 366int } else { 365int },
{
    reveal_with_fuel(days_left_in_year, 13);
}

/// Strips whole months from `rem`, starting at month `m`, while a whole month fits.
pub open spec fn walk_months(y: int, m: int, rem: int) -> (int, int)
    decreases 13 - m,
{
    if m > 12 || rem < spec_days_in_month(y, m) {
        (m, rem)
    } else {
        walk_months(y, m + 1, rem - spec_days_in_month(y, m))
    }
}

/// Days in the months of `y` before month `m` (months past December count 0).
pub open spec fn days_before_month(y: int, m: int) -> int
    decreases m,
{
    if m <= 1 {
        0
    } else {
        days_before_month(y, m - 1) + spec_days_in_month(y, m - 1)
    }
}

pub proof fn lemma_months_fill_year(y: int, m: int)
    requires
        1 <= m <= 13,
    ensures
        days_before_month(y, m) + days_left_in_year(y, m) == days_left_in_year(y, 1),
    decreases m,
{
    if m > 1 {
        lemma_months_fill_year(y, m - 1);
    }
}

pub proof fn lemma_days_left_nonneg(y: int, m: int)
    ensures
        days_left_in_year(y, m) >= 0,
    decreases 13 - m,
{
    if m <= 12 {
        lemma_days_left_nonneg(y, m + 1);
    }
}

pub proof fn lemma_walk_months_from(y: int, m0: int, rem: int)
    requires
        1 <= m0 <= 12,
        0 <= rem < days_left_in_year(y, m0),
    ensures
        m0 <= walk_months(y, m0, rem).0 <= 12,
        0 <= walk_months(y, m0, rem).1 < spec_days_in_month(y, walk_months(y, m0, rem).0),
        days_before_month(y, walk_months(y, m0, rem).0) - days_before_month(y, m0) + walk_months(
            y,
            m0,
            rem,
        ).1 == rem,
    decreases 13 - m0,
{
    if rem >= spec_days_in_month(y, m0) {
        if m0 == 12 {
            assert(days_left_in_year(y, 13) == 0);
        }
        lemma_walk_months_from(y, m0 + 1, rem - spec_days_in_month(y, m0));
    }
}

/// The year length that `today` uses: it applies the leap rule to the year truncated to `u32`.
pub open spec fn clock_year_length(y: int) -> int {
    if spec_is_leap_year((y as u32) as int) {
        366
    } else {
        365
    }
}

/// Strips whole years (as `clock_year_length` counts them) from `rem`, starting at year `y`.
pub open spec fn clock_walk_years(y: int, rem: int) -> (int, int)
    decreases rem,
{
    if rem < clock_year_length(y) {
        (y, rem)
    } else {
        clock_walk_years(y + 1, rem - clock_year_length(y))
    }
}

/// The year whose month lengths `today` uses: the year itself when it is a `u32`, else 2000.
pub open spec fn clock_month_year(y: int) -> int {
    if 0 <= y <= u32::MAX {
        y
    } else {
        2000
    }
}

/// The date `today` reports for the given number of whole days since 1970-01-01.
pub open spec fn date_of_day(days: int) -> Seq<char> {
    let (y, rem) = clock_walk_years(1970, days);
    let (m, r) = walk_months(clock_month_year(y), 1, rem);
    fmt_date(y as nat, m as nat, (r + 1) as nat)
}

/// The date (YYYY-MM-DD) of the day that contains `secs` seconds after the Unix epoch.
pub fn today_at(secs: u64) -> (r: String)
    ensures
        r@ == date_of_day((secs / 86400) as int),
        clock_walk_years(1970, (secs / 86400) as int).0 <= 9999 ==> is_valid_date(r@),
{
    let days_since_epoch = secs / 86400;
    let mut year: i64 = 1970;
    let mut remaining_days: i64 = days_since_epoch as i64;
    loop
        invariant
            0 <= remaining_days <= days_since_epoch,
            1970 <= year,
            365 * (year - 1970) <= days_since_epoch - remaining_days,
            days_since_epoch == secs / 86400,
            clock_walk_years(year as int, remaining_days as int) == clock_walk_years(
                1970,
                days_since_epoch as int,
            ),
        ensures
            0 <= remaining_days < clock_year_length(year as int),
            1970 <= year,
            clock_walk_years(1970, days_since_epoch as int) == (year as int, remaining_days as int),
        decreases remaining_days,
    {
        let days_in_year: i64 = if is_leap_year(year as u32) { 366 } else { 365 };
        if remaining_days < days_in_year {
            break;
        }
        remaining_days = remaining_days - days_in_year;
        year = year + 1;
    }
    let month_year: u32 = if year <= 0xffff_ffff { year as u32 } else { 2000 };
    proof {
        lemma_year_length(month_year as int);
        if year <= 0xffff_ffff {
            assert((year as u32) as int == year as int);
        }
        assert(remaining_days < days_left_in_year(month_year as int, 1));
    }
    let mut month: u32 = 1;
    loop
        invariant
            1 <= month <= 12,
            0 <= remaining_days,
            remaining_days < days_left_in_year(month_year as int, month as int),
            walk_months(month_year as int, month as int, remaining_days as int) == walk_months(
                month_year as int,
                1,
                clock_walk_years(1970, days_since_epoch as int).1,
            ),
        ensures
            1 <= month <= 12,
            0 <= remaining_days < spec_days_in_month(month_year as int, month as int),
            walk_months(month_year as int, 1, clock_walk_years(1970, days_since_epoch as int).1)
                == (month as int, remaining_days as int),
        decreases 13 - month,
    {
        let days = days_in_month_num(month_year, month) as i64;
        if remaining_days < days {
            break;
        }
        remaining_days = remaining_days - days;
        month = month + 1;
        proof {
            if month == 13 {
                assert(days_left_in_year(month_year as int, 13) == 0);
            }
        }
    }
    let day = remaining_days + 1;
    let r = format_date(year as u64, month as u64, day as u64);
    proof {
        if clock_walk_years(1970, (secs / 86400) as int).0 <= 9999 {
            law_date_of_day((secs / 86400) as nat);
        }
    }
    r
}

#[verifier::external_type_specification]
#[verifier::external_body]
pub struct ExSystemTime(std::time::SystemTime);

/// `SystemTime::now`: the wall clock's reading. It depends on the moment of the call, so
/// nothing is stated of it.
#[verifier::external_body]
fn system_now() -> std::time::SystemTime {
    std::time::SystemTime::now()
}

/// `SystemTime::duration_since` with `UNIX_EPOCH`: the time since the epoch, or `None` where
/// the reading lies before it. Which of the two comes back is not stated: the reading is
/// opaque here.
#[verifier::external_body]
fn since_unix_epoch(t: &std::time::SystemTime) -> Option<std::time::Duration> {
    t.duration_since(std::time::UNIX_EPOCH).ok()
}

/// `Duration::as_secs`: the whole seconds of a duration. The duration is opaque here, so
/// nothing is stated of the count.
#[verifier::external_body]
fn whole_secs(d: &std::time::Duration) -> u64 {
    d.as_secs()
}

/// Current wall-clock time in whole seconds since the Unix epoch (0 if the clock reads earlier).
pub(crate) fn unix_now_secs() -> u64 {
    let now = system_now();
    match since_unix_epoch(&now) {
        Some(d) => whole_secs(&d),
        None => 0,
    }
}

/// Get today's date as YYYY-MM-DD string
/// Uses system time
pub fn today() -> (r: String)
    ensures
        exists|secs: u64|
            r@ == #[trigger] date_of_day((secs / 86400) as int) && (clock_walk_years(
                1970,
                (secs / 86400) as int,
            ).0 <= 9999 ==> is_valid_date(r@)),
{
    let secs = unix_now_secs();
    let r = today_at(secs);
    assert(r@ == date_of_day((secs / 86400) as int));
    r
}


proof fn lemma_range_from(cur: Seq<char>, end: Seq<char>, fuel: nat)
    ensures
        ({
            let r = range_from(cur, end, fuel);
            &&& r.len() <= fuel
            &&& fuel > 0 ==> r.len() > 0 && r[0] == cur
            &&& forall|i: int|
                0 <= i < r.len() - 1 ==> is_valid_date(#[trigger] r[i]) && r[i] != end && r[i + 1]
                    == next_date(r[i])
            &&& r.len() > 0 ==> (r.last() == end || r.len() == fuel || !is_valid_date(r.last()))
        }),
    decreases fuel,
{
    if fuel > 1 && cur != end && is_valid_date(cur) {
        let rest = range_from(next_date(cur), end, (fuel - 1) as nat);
        lemma_range_from(next_date(cur), end, (fuel - 1) as nat);
        let r = range_from(cur, end, fuel);
        assert(r == seq![cur] + rest);
        assert forall|i: int| 0 <= i < r.len() - 1 implies is_valid_date(#[trigger] r[i]) && r[i] != end
            && r[i + 1] == next_date(r[i]) by {
            if i > 0 {
                assert(r[i] == rest[i - 1]);
                assert(r[i + 1] == rest[i]);
            }
        }
    }
}

/// The fields of a formatted date read back as the numbers formatted.
pub proof fn lemma_fmt_date_fields(y: nat, m: nat, d: nat)
    requires
        y < 10000,
        m < 100,
        d < 100,
    ensures
        ({
            let s = fmt_date(y, m, d);
            &&& s.len() == 10
            &&& s[4] == '-'
            &&& s[7] == '-'
            &&& s.subrange(0, 4) == fixed_digits(y, 4)
            &&& s.subrange(5, 7) == fixed_digits(m, 2)
            &&& s.subrange(8, 10) == fixed_digits(d, 2)
            &&& all_digits(s.subrange(0, 4))
            &&& all_digits(s.subrange(5, 7))
            &&& all_digits(s.subrange(8, 10))
            &&& date_year(s) == y
            &&& date_month(s) == m
            &&& date_day(s) == d
        }),
{
    reveal_with_fuel(pow10, 5);
    lemma_padded_fixed(y, 4);
    lemma_padded_fixed(m, 2);
    lemma_padded_fixed(d, 2);
    lemma_fixed_digits_value(y, 4);
    lemma_fixed_digits_value(m, 2);
    lemma_fixed_digits_value(d, 2);
    let s = fmt_date(y, m, d);
    assert(pow10(4) == 10000 && pow10(2) == 100);
    assert(s.len() == 10);
    assert(s[4] == '-' && s[7] == '-');
    assert(s.subrange(0, 4) =~= fixed_digits(y, 4));
    assert(s.subrange(5, 7) =~= fixed_digits(m, 2));
    assert(s.subrange(8, 10) =~= fixed_digits(d, 2));
    assert(y % 10000 == y && m % 100 == m && d % 100 == d);
    assert(date_year(s) == y);
    assert(date_month(s) == m);
    assert(date_day(s) == d);
}

/// A valid date is the formatting of its own fields.
proof fn lemma_date_is_fmt(s: Seq<char>)
    requires
        is_valid_date(s),
    ensures
        fmt_date(date_year(s), date_month(s), date_day(s)) == s,
        date_year(s) < 10000,
        date_day(s) <= 31,
{
    reveal_with_fuel(pow10, 5);
    lemma_digits_value_lt_pow10(s.subrange(0, 4));
    lemma_digits_value_lt_pow10(s.subrange(5, 7));
    lemma_digits_value_lt_pow10(s.subrange(8, 10));
    lemma_digits_fixed(s.subrange(0, 4));
    lemma_digits_fixed(s.subrange(5, 7));
    lemma_digits_fixed(s.subrange(8, 10));
    lemma_fmt_date_fields(date_year(s), date_month(s), date_day(s));
    let f = fmt_date(date_year(s), date_month(s), date_day(s));
    assert(f.subrange(0, 4) == s.subrange(0, 4));
    assert(f.subrange(5, 7) == s.subrange(5, 7));
    assert(f.subrange(8, 10) == s.subrange(8, 10));
    assert forall|i: int| 0 <= i < 10 implies f[i] == s[i] by {
        if i < 4 {
            assert(f[i] == f.subrange(0, 4)[i] && s[i] == s.subrange(0, 4)[i]);
        } else if 5 <= i < 7 {
            assert(f[i] == f.subrange(5, 7)[i - 5] && s[i] == s.subrange(5, 7)[i - 5]);
        } else if 8 <= i {
            assert(f[i] == f.subrange(8, 10)[i - 8] && s[i] == s.subrange(8, 10)[i - 8]);
        }
    }
    assert(f =~= s);
}

/// A formatted date that reads as a valid date was formatted from that date's own fields.
proof fn lemma_fmt_is_own_fields(y: nat, m: nat, d: nat)
    requires
        is_valid_date(fmt_date(y, m, d)),
    ensures
        y < 10000 && m < 100 && d < 100,
        date_year(fmt_date(y, m, d)) == y,
        date_month(fmt_date(y, m, d)) == m,
        date_day(fmt_date(y, m, d)) == d,
{
    reveal_with_fuel(pow10, 5);
    assert(padded(y, 4).len() >= 4 && padded(m, 2).len() >= 2 && padded(d, 2).len() >= 2);
    if y >= 10000 {
        lemma_decimal_len_gt(y, 4);
    }
    if m >= 100 {
        lemma_decimal_len_gt(m, 2);
    }
    if d >= 100 {
        lemma_decimal_len_gt(d, 2);
    }
    lemma_fmt_date_fields(y, m, d);
}

/// Formatting a parsed date gives back its text, and parsing a formatted calendar date
/// gives back its fields: `parse_date` and `{:04}-{:02}-{:02}` are inverse on valid dates.
/// A valid date is the formatting of its own fields and of no others.
pub proof fn law_date_text_round_trip(s: Seq<char>, y: nat, m: nat, d: nat)
    ensures
        is_valid_date(s) ==> fmt_date(date_year(s), date_month(s), date_day(s)) == s,
        y <= 9999 && 1 <= m <= 12 && 1 <= d <= spec_days_in_month(y as int, m as int) ==> ({
            let t = fmt_date(y, m, d);
            is_valid_date(t) && date_year(t) == y && date_month(t) == m && date_day(t) == d
        }),
        is_valid_date(s) && s == fmt_date(y, m, d) ==> y == date_year(s) && m == date_month(s)
            && d == date_day(s),
        is_valid_date(s) ==> (s == fmt_date(y, m, d) <==> (y == date_year(s) && m == date_month(s)
            && d == date_day(s))),
{
    if is_valid_date(s) {
        lemma_date_is_fmt(s);
        if s == fmt_date(y, m, d) {
            lemma_fmt_is_own_fields(y, m, d);
        }
    }
    if y <= 9999 && 1 <= m <= 12 && 1 <= d <= spec_days_in_month(y as int, m as int) {
        lemma_fmt_date_fields(y, m, d);
    }
}

/// Two valid dates with the same `date_ord` are the same date.
proof fn lemma_date_ord_eq(a: Seq<char>, b: Seq<char>)
    requires
        is_valid_date(a),
        is_valid_date(b),
        date_ord(a) == date_ord(b),
    ensures
        a == b,
{
    lemma_date_is_fmt(a);
    lemma_date_is_fmt(b);
    let (ya, ma, da) = (date_year(a) as int, date_month(a) as int, date_day(a) as int);
    let (yb, mb, db) = (date_year(b) as int, date_month(b) as int, date_day(b) as int);
    lemma_ord_fields(ya, ma, da, yb, mb, db);
}

proof fn lemma_ord_fields(ya: int, ma: int, da: int, yb: int, mb: int, db: int)
    requires
        1 <= ma <= 12,
        1 <= mb <= 12,
        1 <= da <= 31,
        1 <= db <= 31,
        ya * 372 + ma * 31 + da == yb * 372 + mb * 31 + db,
    ensures
        ya == yb && ma == mb && da == db,
{
    if ya < yb {
        assert(ya * 372 + 372 <= yb * 372);
    } else if yb < ya {
        assert(yb * 372 + 372 <= ya * 372);
    } else if ma < mb {
        assert(ma * 31 + 31 <= mb * 31);
    } else if mb < ma {
        assert(mb * 31 + 31 <= ma * 31);
    }
}

/// The day after a valid date that is not the last one up to `e` is valid, comes after it
/// and not after `e`.
proof fn lemma_next_date_step(s: Seq<char>, e: Seq<char>)
    requires
        is_valid_date(s),
        is_valid_date(e),
        date_ord(s) < date_ord(e),
    ensures
        is_valid_date(next_date(s)),
        date_ord(s) < date_ord(next_date(s)) <= date_ord(e),
{
    lemma_date_is_fmt(s);
    lemma_date_is_fmt(e);
    let y = date_year(s);
    let m = date_month(s);
    let d = date_day(s);
    let dim = spec_days_in_month(y as int, m as int);
    if d < dim {
        lemma_fmt_date_fields(y, m, d + 1);
    } else if m < 12 {
        lemma_fmt_date_fields(y, m + 1, 1);
    } else {
        assert(y < 9999 || date_ord(e) <= date_ord(s));
        lemma_fmt_date_fields(y + 1, 1, 1);
    }
}

proof fn lemma_range_reaches_end(cur: Seq<char>, end: Seq<char>, fuel: nat)
    requires
        is_valid_date(cur),
        is_valid_date(end),
        date_ord(cur) <= date_ord(end),
        fuel >= date_ord(end) - date_ord(cur) + 1,
    ensures
        ({
            let r = range_from(cur, end, fuel);
            &&& r.len() > 0
            &&& r.last() == end
            &&& forall|i: int| 0 <= i < r.len() ==> is_valid_date(#[trigger] r[i])
        }),
    decreases fuel,
{
    let r = range_from(cur, end, fuel);
    if cur == end {
    } else if date_ord(cur) == date_ord(end) {
        lemma_date_ord_eq(cur, end);
    } else {
        lemma_next_date_step(cur, end);
        let n = next_date(cur);
        lemma_range_reaches_end(n, end, (fuel - 1) as nat);
        let rest = range_from(n, end, (fuel - 1) as nat);
        assert(r == seq![cur] + rest);
        assert forall|i: int| 0 <= i < r.len() implies is_valid_date(#[trigger] r[i]) by {
            if i > 0 {
                assert(r[i] == rest[i - 1]);
            }
        }
    }
}

/// A date range is the inclusive range: it lists dates exactly when both dates are valid and
/// the start is not after the end; then it starts at the start date, ends at the end date,
/// every date is valid, and each is followed by the next day.
pub proof fn law_date_range(start: Seq<char>, end: Seq<char>)
    ensures
        ({
            let r = spec_date_range(start, end);
            &&& r.len() > 0 <==> (is_valid_date(start) && is_valid_date(end) && date_ord(start)
                <= date_ord(end))
            &&& r.len() > 0 ==> r[0] == start && r.last() == end
            &&& forall|i: int| 0 <= i < r.len() ==> is_valid_date(#[trigger] r[i])
            &&& forall|i: int| 0 <= i < r.len() - 1 ==> r[i + 1] == next_date(#[trigger] r[i])
        }),
{
    if is_valid_date(start) && is_valid_date(end) && date_ord(start) <= date_ord(end) {
        let fuel = (date_ord(end) - date_ord(start) + 1) as nat;
        lemma_range_from(start, end, fuel);
        lemma_range_reaches_end(start, end, fuel);
    }
}


/// The year walk that `today` makes, from a year from 1970 on, ends no earlier and inside
/// the year it reaches.
proof fn lemma_clock_walk_from(y0: int, rem: int)
    requires
        y0 >= 1970,
        rem >= 0,
    ensures
        clock_walk_years(y0, rem).0 >= y0,
        0 <= clock_walk_years(y0, rem).1 < clock_year_length(clock_walk_years(y0, rem).0),
    decreases rem,
{
    if rem >= clock_year_length(y0) {
        lemma_clock_walk_from(y0 + 1, rem - clock_year_length(y0));
    }
}

/// One day more moves the year walk a day on inside its year, or to the next year's start.
proof fn lemma_clock_walk_next(y0: int, rem: int)
    requires
        rem >= 0,
    ensures
        ({
            let (y, r) = clock_walk_years(y0, rem);
            clock_walk_years(y0, rem + 1) == if r + 1 < clock_year_length(y) {
                (y, r + 1)
            } else {
                (y + 1, 0)
            }
        }),
    decreases rem,
{
    let l = clock_year_length(y0);
    if rem >= l {
        lemma_clock_walk_next(y0 + 1, rem - l);
        assert(clock_walk_years(y0, rem + 1) == clock_walk_years(y0 + 1, (rem - l) + 1));
    } else if rem + 1 == l {
        assert(clock_walk_years(y0 + 1, 0) == (y0 + 1, 0int));
        assert(clock_walk_years(y0, rem + 1) == clock_walk_years(y0 + 1, 0));
    }
}

/// One day more moves the month walk a day on inside its month, or to the next month's start.
proof fn lemma_walk_months_next(y: int, m0: int, rem: int)
    requires
        1 <= m0 <= 12,
        0 <= rem < days_left_in_year(y, m0),
    ensures
        ({
            let (m, r) = walk_months(y, m0, rem);
            walk_months(y, m0, rem + 1) == if r + 1 < spec_days_in_month(y, m) {
                (m, r + 1)
            } else {
                (m + 1, 0)
            }
        }),
    decreases 13 - m0,
{
    if rem >= spec_days_in_month(y, m0) {
        if m0 == 12 {
            assert(days_left_in_year(y, 13) == 0);
        }
        let l = spec_days_in_month(y, m0);
        lemma_walk_months_next(y, m0 + 1, rem - l);
        assert(walk_months(y, m0, rem + 1) == walk_months(y, m0 + 1, (rem - l) + 1));
    } else if rem + 1 == spec_days_in_month(y, m0) {
        if m0 < 12 {
            assert(spec_days_in_month(y, m0 + 1) > 0);
        }
        assert(walk_months(y, m0 + 1, 0) == (m0 + 1, 0int));
        assert(walk_months(y, m0, rem + 1) == walk_months(y, m0 + 1, 0));
    }
}

/// `today` counts days through the calendar: day 0 is 1970-01-01, a day whose year is at
/// most 9999 reads as a valid date, and the day after it is that date's `next_date`.
pub proof fn law_date_of_day(days: nat)
    requires
        clock_walk_years(1970, days as int).0 <= 9999,
    ensures
        date_of_day(0) == fmt_date(1970, 1, 1),
        is_valid_date(date_of_day(days as int)),
        date_of_day(days + 1int) == next_date(date_of_day(days as int)),
{
    assert(clock_walk_years(1970, 0) == (1970int, 0int));
    assert(walk_months(1970, 1, 0) == (1int, 0int));
    let (y, rem) = clock_walk_years(1970, days as int);
    lemma_clock_walk_from(1970, days as int);
    assert((y as u32) as int == y);
    assert(clock_month_year(y) == y);
    lemma_year_length(y);
    assert(clock_year_length(y) == days_left_in_year(y, 1));
    lemma_walk_months_from(y, 1, rem);
    let (m, r) = walk_months(y, 1, rem);
    lemma_fmt_date_fields(y as nat, m as nat, (r + 1) as nat);
    assert(date_of_day(days as int) == fmt_date(y as nat, m as nat, (r + 1) as nat));
    lemma_clock_walk_next(1970, days as int);
    lemma_walk_months_next(y, 1, rem);
    lemma_months_fill_year(y, m);
    lemma_days_left_nonneg(y, m + 1);
    if m < 12 {
        lemma_days_left_nonneg(y, m + 2);
        assert(days_left_in_year(y, m + 1) >= spec_days_in_month(y, m + 1));
    }
    assert(days_left_in_year(y, m) == spec_days_in_month(y, m) + days_left_in_year(y, m + 1));
    if rem + 1 < clock_year_length(y) {
        assert(!(m == 12 && r + 1 == spec_days_in_month(y, m)));
        if r + 1 < spec_days_in_month(y, m) {
            lemma_fmt_date_fields(y as nat, m as nat, (r + 2) as nat);
        } else {
            lemma_fmt_date_fields(y as nat, (m + 1) as nat, 1);
        }
    } else {
        assert(m == 12 && r + 1 == spec_days_in_month(y, m));
        assert(walk_months(clock_month_year(y + 1), 1, 0) == (1int, 0int));
    }
}

} // verus!

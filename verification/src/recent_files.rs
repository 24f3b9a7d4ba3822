//! Timestamps for notes: the `updated:` field of a note's frontmatter, ISO 8601 parsing and
//! formatting, all in UTC seconds since the Unix epoch.
use vstd::prelude::*;
use vstd::string::StringSliceAdditionalSpecFns;
use vstd::utf8::is_char_boundary;

use crate::date_utils::{
    spec_days_in_month, spec_is_leap_year, walk_months, days_in_month_num, days_left_in_year,
    lemma_year_length, lemma_months_fill_year, lemma_days_left_nonneg, lemma_walk_months_from,
    days_before_month,
};
use crate::text::{
    lemma_trim_sub, chars_of, line_ranges, line_ranges_of, lines, padded_int, push_padded_i64, string_of_range,
    trim, trim_by, trim_range, char_pred, ws_pred, trim_pred, skip_start, skip_end,
    lemma_skip_bounds, all_digits, digits_value, fixed_digits, is_digit, lemma_fixed_digits_value,
    lemma_padded_fixed, lemma_pow10_pos, padded, pow10,
};

verus! {

broadcast use vstd::utf8::group_utf8_lib;

// ---------------------------------------------------------------------------
// Integer fields
// ---------------------------------------------------------------------------

pub open spec fn is_digit_byte(b: u8) -> bool {
    48 <= b && b <= 57
}

/// Value of a string of ASCII digit bytes.
pub open spec fn bytes_value(t: Seq<u8>) -> nat
    decreases t.len(),
{
    if t.len() == 0 {
        0
    } else {
        (bytes_value(t.drop_last()) * 10 + (t.last() - 48)) as nat
    }
}

pub open spec fn all_digit_bytes(t: Seq<u8>) -> bool {
    forall|i: int| 0 <= i < t.len() ==> is_digit_byte(#[trigger] t[i])
}

/// What `i64::from_str` gives for the text `x`: an optional sign, then at least one digit.
pub open spec fn parse_int_bytes(x: Seq<u8>) -> Option<int> {
    let neg = x.len() > 0 && x[0] == 45u8;
    let t = if x.len() > 0 && (x[0] == 45u8 || x[0] == 43u8) {
        x.drop_first()
    } else {
        x
    };
    if t.len() > 0 && all_digit_bytes(t) && (if neg {
        bytes_value(t) <= 0x8000_0000_0000_0000
    } else {
        bytes_value(t) <= 0x7fff_ffff_ffff_ffff
    }) {
        Some(
            if neg {
                -(bytes_value(t) as int)
            } else {
                bytes_value(t) as int
            },
        )
    } else {
        None
    }
}

/// The integer in bytes `lo..hi` of `b`.
pub open spec fn field(b: Seq<u8>, lo: int, hi: int) -> Option<int> {
    parse_int_bytes(b.subrange(lo, hi))
}

pub proof fn lemma_bytes_value_bound(t: Seq<u8>)
    requires
        all_digit_bytes(t),
        t.len() <= 4,
    ensures
        bytes_value(t) < 10000,
        t.len() <= 2 ==> bytes_value(t) < 100,
{
    if t.len() == 4 {
        let u = t.drop_last();
        assert(all_digit_bytes(u)) by {
            assert forall|i: int| 0 <= i < u.len() implies is_digit_byte(#[trigger] u[i]) by {
                assert(u[i] == t[i]);
            }
        };
        lemma_bytes_value_small(u);
        assert(is_digit_byte(t[3]));
    } else {
        lemma_bytes_value_small(t);
    }
}

pub proof fn lemma_bytes_value_small(t: Seq<u8>)
    requires
        all_digit_bytes(t),
        t.len() <= 3,
    ensures
        bytes_value(t) < 1000,
        t.len() <= 2 ==> bytes_value(t) < 100,
        t.len() <= 1 ==> bytes_value(t) < 10,
    decreases t.len(),
{
    if t.len() > 0 {
        let u = t.drop_last();
        assert(all_digit_bytes(u)) by {
            assert forall|i: int| 0 <= i < u.len() implies is_digit_byte(#[trigger] u[i]) by {
                assert(u[i] == t[i]);
            }
        };
        lemma_bytes_value_small(u);
        assert(is_digit_byte(t[t.len() - 1]));
    }
}

/// `b[lo..hi].parse::<i64>().ok()` for a field of at most four bytes.
#[verifier::loop_isolation(false)]
fn parse_field(b: &[u8], lo: usize, hi: usize) -> (r: Option<i64>)
    requires
        lo <= hi <= b@.len(),
        hi - lo <= 4,
    ensures
        r matches Some(v) ==> field(b@, lo as int, hi as int) == Some(v as int),
        r matches Some(v) ==> -10000 < v < 10000 && (hi - lo <= 2 ==> -100 < v < 100),
        r is None ==> field(b@, lo as int, hi as int) is None,
{
    let ghost x = b@.subrange(lo as int, hi as int);
    if lo == hi {
        return None;
    }
    let neg = b[lo] == 45u8;
    let start = if b[lo] == 45u8 || b[lo] == 43u8 { lo + 1 } else { lo };
    let ghost t = b@.subrange(start as int, hi as int);
    assert(t =~= if x.len() > 0 && (x[0] == 45u8 || x[0] == 43u8) {
        x.drop_first()
    } else {
        x
    });
    if start == hi {
        assert(t.len() == 0);
        return None;
    }
    let mut acc: i64 = 0;
    let mut i = start;
    while i < hi
        invariant
            lo <= start <= i <= hi <= b@.len(),
            hi - lo <= 4,
            t == b@.subrange(start as int, hi as int),
            all_digit_bytes(b@.subrange(start as int, i as int)),
            acc == bytes_value(b@.subrange(start as int, i as int)),
        decreases hi - i,
    {
        let c = b[i];
        assert(b@.subrange(start as int, i + 1).drop_last() =~= b@.subrange(start as int, i as int));
        if c < 48 || c > 57 {
            assert(t[i - start] == c);
            assert(!is_digit_byte(t[i - start]));
            assert(!all_digit_bytes(t));
            assert(parse_int_bytes(x) is None);
            assert(field(b@, lo as int, hi as int) is None);
            return None;
        }
        proof {
            assert(all_digit_bytes(b@.subrange(start as int, i + 1))) by {
                let u = b@.subrange(start as int, i + 1);
                assert forall|k: int| 0 <= k < u.len() implies is_digit_byte(#[trigger] u[k]) by {
                    if k < u.len() - 1 {
                        assert(u[k] == b@.subrange(start as int, i as int)[k]);
                    }
                }
            };
            lemma_bytes_value_bound(b@.subrange(start as int, i + 1));
        }
        acc = acc * 10 + (c - 48) as i64;
        i += 1;
    }
    assert(b@.subrange(start as int, hi as int) =~= t);
    proof {
        lemma_bytes_value_bound(t);
    }
    if neg {
        Some(-acc)
    } else {
        Some(acc)
    }
}

// ---------------------------------------------------------------------------
// Days since the epoch
// ---------------------------------------------------------------------------

pub open spec fn year_length(y: int) -> int {
    if spec_is_leap_year(y) {
        366
    } else {
        365
    }
}

/// Days from 1970-01-01 to January 1st of `y`; negative for years before 1970.
pub open spec fn days_before_year(y: int) -> int
    decreases (if y < 1970 { 1970 - y } else { y - 1970 }),
{
    if y == 1970 {
        0
    } else if y > 1970 {
        days_before_year(y - 1) + year_length(y - 1)
    } else {
        days_before_year(y + 1) - year_length(y)
    }
}

/// Day number of a date counted from 1970-01-01 = 0.
pub open spec fn days_from_epoch(y: int, m: int, d: int) -> int {
    days_before_year(y) + days_before_month(y, m) + d - 1
}

#[verifier::loop_isolation(false)]
fn days_from_epoch_exec(year: i64, month: i64, day: i64) -> (r: i64)
    requires
        -9999 <= year <= 9999,
        -99 <= month <= 99,
        -99 <= day <= 99,
    ensures
        r == days_from_epoch(year as int, month as int, day as int),
        -5_000_000 <= r <= 3_000_000,
{
    let mut days: i64 = 0;
    let mut y: i64 = 1970;
    if year >= 1970 {
        while y < year
            invariant
                1970 <= y <= year <= 9999,
                days == days_before_year(y as int),
                0 <= days <= 366 * (y - 1970),
            decreases year - y,
        {
            days = days + if is_leap_i64(y) { 366 } else { 365 };
            y = y + 1;
        }
    } else {
        while y > year
            invariant
                -9999 <= year <= y <= 1970,
                days == days_before_year(y as int),
                -366 * (1970 - y) <= days <= 0,
            decreases y - year,
        {
            y = y - 1;
            days = days - if is_leap_i64(y) { 366 } else { 365 };
        }
    }
    assert(y == year);
    assert(-366 * 11969 <= days <= 366 * 8029);
    let mut m: i64 = 1;
    let mut md: i64 = 0;
    while m < month
        invariant
            1 <= m,
            m <= month || month < 1,
            month < 1 ==> m == 1,
            month <= 99,
            md == days_before_month(year as int, m as int),
            0 <= md <= 31 * (m - 1),
        decreases month - m,
    {
        md = md + days_in_month_i64(year, m);
        m = m + 1;
    }
    proof {
        if month < 1 {
            assert(days_before_month(year as int, month as int) == 0);
        } else {
            assert(m == month);
        }
    }
    assert(md <= 31 * 98);
    days + md + day - 1
}

fn is_leap_i64(year: i64) -> (r: bool)
    requires
        year > i64::MIN,
    ensures
        r == spec_is_leap_year(year as int),
{
    let y: u64 = if year < 0 { (-year) as u64 } else { year as u64 };
    proof {
        let yi = year as int;
        assert((yi % 4 == 0) == ((-yi) % 4 == 0)) by (nonlinear_arith);
        assert((yi % 100 == 0) == ((-yi) % 100 == 0)) by (nonlinear_arith);
        assert((yi % 400 == 0) == ((-yi) % 400 == 0)) by (nonlinear_arith);
    }
    (y % 4 == 0 && y % 100 != 0) || y % 400 == 0
}

fn days_in_month_i64(year: i64, month: i64) -> (r: i64)
    requires
        year > i64::MIN,
    ensures
        r == spec_days_in_month(year as int, month as int),
        0 <= r <= 31,
{
    if month == 1 || month == 3 || month == 5 || month == 7 || month == 8 || month == 10 || month
        == 12 {
        31
    } else if month == 4 || month == 6 || month == 9 || month == 11 {
        30
    } else if month == 2 {
        if is_leap_i64(year) {
            29
        } else {
            28
        }
    } else {
        0
    }
}

// ---------------------------------------------------------------------------
// ISO 8601 parsing
// ---------------------------------------------------------------------------

pub open spec fn cb(b: Seq<u8>, i: int) -> bool {
    is_char_boundary(b, i)
}

/// The time-zone offset in seconds that follows the seconds field (bytes 19 on).
pub open spec fn tz_offset(b: Seq<u8>) -> Option<int> {
    if !cb(b, 19) {
        Some(0)
    } else {
        let t = b.subrange(19, b.len() as int);
        if t.len() == 0 || (t.len() == 1 && t[0] == 90u8) {
            Some(0)
        } else if t.len() >= 6 {
            let sign: int = if t[0] == 45u8 { -1 } else { 1 };
            match (field(b, 20, 22), field(b, 23, 25)) {
                (Some(h), Some(m)) => Some(sign * (h * 3600 + m * 60)),
                _ => None,
            }
        } else {
            None
        }
    }
}

/// Seconds since the epoch denoted by `YYYY-MM-DDTHH:MM:SS` followed by `Z`, nothing, or a
/// `±HH:MM` offset, read field by field as integers.
pub open spec fn iso_parse(b: Seq<u8>) -> Option<i64> {
    if b.len() < 19 || b[10] != 84u8 {
        None
    } else {
        match (
            field(b, 0, 4),
            field(b, 5, 7),
            field(b, 8, 10),
            field(b, 11, 13),
            field(b, 14, 16),
            field(b, 17, 19),
            tz_offset(b),
        ) {
            (Some(y), Some(mo), Some(d), Some(h), Some(mi), Some(sec), Some(tz)) => Some(
                (days_from_epoch(y, mo, d) * 86400 + h * 3600 + mi * 60 + sec - tz) as i64,
            ),
            _ => None,
        }
    }
}

/// Start of the `k`-th numeric field of `YYYY-MM-DDTHH:MM:SS`.
pub open spec fn field_lo(k: int) -> int {
    if k == 0 {
        0
    } else {
        2 + 3 * k
    }
}

/// End of the `k`-th numeric field of `YYYY-MM-DDTHH:MM:SS`.
pub open spec fn field_hi(k: int) -> int {
    if k == 0 {
        4
    } else {
        4 + 3 * k
    }
}

/// The slices of fields `k..6` (and of the offset) are taken at character boundaries, as far
/// as the parser gets: it stops at the first field that is not an integer.
pub open spec fn slices_ok_from(b: Seq<u8>, k: int) -> bool
    decreases 6 - k,
{
    if k >= 6 {
        tz_slices_ok(b)
    } else {
        cb(b, field_lo(k)) && cb(b, field_hi(k)) && (field(b, field_lo(k), field_hi(k)) is None
            || slices_ok_from(b, k + 1))
    }
}

/// The byte offsets at which the parser slices the text are character boundaries, for every
/// slice that it reaches. Slicing a `str` elsewhere panics.
pub open spec fn iso_slices_ok(b: Seq<u8>) -> bool {
    b.len() < 19 || b[10] != 84u8 || slices_ok_from(b, 0)
}

pub open spec fn tz_slices_ok(b: Seq<u8>) -> bool {
    let t = b.subrange(19, b.len() as int);
    t.len() == 0 || (t.len() == 1 && t[0] == 90u8) || t.len() < 6 || (cb(b, 20) && cb(b, 22) && (
    field(b, 20, 22) is None || (cb(b, 23) && cb(b, 25))))
}

/// Whether `parse_iso8601_to_unix` can take `s` (it would slice a character apart otherwise).
pub fn iso8601_slices_ok(s: &str) -> (r: bool)
    ensures
        r == iso_slices_ok(s.spec_bytes()),
{
    let b = s.as_bytes();
    proof {
        reveal_with_fuel(slices_ok_from, 7);
        vstd::utf8::encode_utf8_valid_utf8(s@);
        vstd::utf8::is_char_boundary_start_end_of_seq(b@);
    }
    if b.len() < 19 || b[10] != 84u8 {
        return true;
    }
    if !s.is_char_boundary(4) {
        return false;
    }
    if parse_field(b, 0, 4).is_none() {
        return true;
    }
    if !s.is_char_boundary(5) || !s.is_char_boundary(7) {
        return false;
    }
    if parse_field(b, 5, 7).is_none() {
        return true;
    }
    if !s.is_char_boundary(8) || !s.is_char_boundary(10) {
        return false;
    }
    if parse_field(b, 8, 10).is_none() {
        return true;
    }
    if !s.is_char_boundary(11) || !s.is_char_boundary(13) {
        return false;
    }
    if parse_field(b, 11, 13).is_none() {
        return true;
    }
    if !s.is_char_boundary(14) || !s.is_char_boundary(16) {
        return false;
    }
    if parse_field(b, 14, 16).is_none() {
        return true;
    }
    if !s.is_char_boundary(17) || !s.is_char_boundary(19) {
        return false;
    }
    if parse_field(b, 17, 19).is_none() {
        return true;
    }
    let n = b.len();
    if n == 19 || (n == 20 && b[19] == 90u8) || n - 19 < 6 {
        return true;
    }
    if !s.is_char_boundary(20) || !s.is_char_boundary(22) {
        return false;
    }
    if parse_field(b, 20, 22).is_none() {
        return true;
    }
    s.is_char_boundary(23) && s.is_char_boundary(25)
}

/// Parse an ISO 8601 datetime string to seconds since Unix epoch (UTC).
/// Handles: YYYY-MM-DDTHH:MM:SS±HH:MM and YYYY-MM-DDTHH:MM:SSZ
pub fn parse_iso8601_to_unix(s: &str) -> (r: Option<i64>)
    requires
        iso_slices_ok(s.spec_bytes()),
    ensures
        r == iso_parse(s.spec_bytes()),
{
    let b = s.as_bytes();
    proof {
        reveal_with_fuel(slices_ok_from, 7);
        vstd::utf8::encode_utf8_valid_utf8(s@);
        vstd::utf8::is_char_boundary_start_end_of_seq(b@);
    }
    if b.len() < 19 || b[10] != 84u8 {
        return None;
    }
    let year = match parse_field(b, 0, 4) {
        Some(v) => v,
        None => return None,
    };
    let month = match parse_field(b, 5, 7) {
        Some(v) => v,
        None => return None,
    };
    let day = match parse_field(b, 8, 10) {
        Some(v) => v,
        None => return None,
    };
    let hour = match parse_field(b, 11, 13) {
        Some(v) => v,
        None => return None,
    };
    let minute = match parse_field(b, 14, 16) {
        Some(v) => v,
        None => return None,
    };
    let second = match parse_field(b, 17, 19) {
        Some(v) => v,
        None => return None,
    };
    let n = b.len();
    let tz_offset_secs: i64 = if !s.is_char_boundary(19) {
        0
    } else if n == 19 || (n == 20 && b[19] == 90u8) {
        0
    } else if n - 19 >= 6 {
        let negative = b[19] == 45u8;
        let tz_hour = match parse_field(b, 20, 22) {
            Some(v) => v,
            None => return None,
        };
        let tz_min = match parse_field(b, 23, 25) {
            Some(v) => v,
            None => return None,
        };
        let off = tz_hour * 3600 + tz_min * 60;
        assert((-1int) * (off as int) == -(off as int));
        if negative {
            -off
        } else {
            off
        }
    } else {
        return None;
    };
    proof {
        let t = b@.subrange(19, b@.len() as int);
        assert(n == 19 ==> t.len() == 0);
        assert(n == 20 ==> t.len() == 1 && t[0] == b@[19]);
    }
    assert(tz_offset(b@) == Some(tz_offset_secs as int));
    let days = days_from_epoch_exec(year, month, day);
    let local_ts = days * 86400 + hour * 3600 + minute * 60 + second;
    Some(local_ts - tz_offset_secs)
}

// ---------------------------------------------------------------------------
// Formatting
// ---------------------------------------------------------------------------

/// Moves whole years between `rem` and the year count, starting at year `y`: years before
/// `y` are added to a negative `rem`, years from `y` on are taken from one that is a year
/// or more, until `0 <= rem` is less than the length of the year reached.
pub open spec fn walk_years(y: int, rem: int) -> (int, int)
    decreases (if rem < 0 { 400 - rem } else { rem }),
{
    if rem < 0 {
        walk_years(y - 1, rem + year_length(y - 1))
    } else if rem < year_length(y) {
        (y, rem)
    } else {
        walk_years(y + 1, rem - year_length(y))
    }
}

/// `(year, month, day)` of day number `days` (1970-01-01 = 0), for days before the epoch
/// too.
pub open spec fn civil_from_days(days: int) -> (int, int, int) {
    let (y, rem) = walk_years(1970, days);
    let (m, r) = walk_months(y, 1, rem);
    (y, m, r + 1)
}

/// `YYYY-MM-DDTHH:MM:SSZ` for the timestamp `ts` (formatted with `{:04}`, `{:02}`).
pub open spec fn iso_of_unix(ts: int) -> Seq<char> {
    let t = ts % 86400;
    let (y, m, d) = civil_from_days((ts - t) / 86400);
    padded_int(y, 4) + seq!['-'] + padded_int(m, 2) + seq!['-'] + padded_int(d, 2) + seq!['T']
        + padded_int(t / 3600, 2) + seq![':'] + padded_int((t % 3600) / 60, 2) + seq![':']
        + padded_int(t % 60, 2) + seq!['Z']
}

/// Converts a day number to `(year, month, day)`.
fn days_to_ymd(days: i64) -> (r: (i64, i64, i64))
    requires
        -0x10_0000_0000_0000 <= days <= 0x10_0000_0000_0000,
    ensures
        r.0 as int == civil_from_days(days as int).0,
        r.1 as int == civil_from_days(days as int).1,
        r.2 as int == civil_from_days(days as int).2,
{
    let mut year: i64 = 1970;
    let mut rem = days;
    if days < 0 {
        while rem < 0
            invariant
                days <= rem < 367,
                year <= 1970,
                -0x10_0000_0000_0000 <= days < 0,
                365 * (1970 - year) <= rem - days,
                rem >= 0 ==> rem < year_length(year as int),
                walk_years(year as int, rem as int) == walk_years(1970, days as int),
            decreases 400 - rem,
        {
            year = year - 1;
            let in_year: i64 = if is_leap_i64(year) { 366 } else { 365 };
            rem = rem + in_year;
        }
        proof {
            lemma_year_length(year as int);
        }
    } else {
        loop
            invariant
                1970 <= year,
                0 <= rem <= days,
                365 * (year - 1970) <= days - rem,
                days <= 0x10_0000_0000_0000,
                walk_years(year as int, rem as int) == walk_years(1970, days as int),
            ensures
                0 <= rem < year_length(year as int),
                1970 <= year <= 1970 + 0x10_0000_0000_0000,
                walk_years(1970, days as int) == (year as int, rem as int),
            decreases rem,
        {
            let in_year: i64 = if is_leap_i64(year) { 366 } else { 365 };
            if rem < in_year {
                break;
            }
            rem = rem - in_year;
            year = year + 1;
        }
    }
    assert(walk_years(1970, days as int) == (year as int, rem as int));
    assert(0 <= rem < year_length(year as int));
    assert(-0x10_0000_0000_0000 <= year <= 1970 + 0x10_0000_0000_0000);
    proof {
        lemma_year_length(year as int);
    }
    let mut month: i64 = 1;
    loop
        invariant
            1 <= month <= 12,
            -0x10_0000_0000_0000 <= year <= 1970 + 0x10_0000_0000_0000,
            0 <= rem < 367,
            rem < days_left_in_year(year as int, month as int),
            walk_months(year as int, month as int, rem as int) == walk_months(
                year as int,
                1,
                walk_years(1970, days as int).1,
            ),
        ensures
            1 <= month <= 12,
            walk_months(year as int, 1, walk_years(1970, days as int).1) == (
                month as int,
                rem as int,
            ),
        decreases 13 - month,
    {
        let in_month = days_in_month_i64(year, month);
        if rem < in_month {
            break;
        }
        rem = rem - in_month;
        month = month + 1;
        proof {
            if month == 13 {
                assert(days_left_in_year(year as int, 13) == 0);
            }
        }
    }
    (year, month, rem + 1)
}

/// Format a unix timestamp as a UTC ISO 8601 string (YYYY-MM-DDTHH:MM:SSZ).
#[verifier::rlimit(30)]
pub fn unix_to_iso8601(ts: i64) -> (r: String)
    requires
        ts - ts % 86400 >= i64::MIN,
    ensures
        r@ == iso_of_unix(ts as int),
{
    let m = ts % 86400;
    let time_secs = if m < 0 { m + 86400 } else { m };
    assert(time_secs as int == (ts as int) % 86400);
    let days = (ts - time_secs) / 86400;
    let hour = time_secs / 3600;
    let minute = (time_secs % 3600) / 60;
    let second = time_secs % 60;
    let (year, month, day) = days_to_ymd(days);
    let mut out = String::new();
    push_padded_i64(&mut out, year, 4);
    out.push('-');
    push_padded_i64(&mut out, month, 2);
    out.push('-');
    push_padded_i64(&mut out, day, 2);
    out.push('T');
    push_padded_i64(&mut out, hour, 2);
    out.push(':');
    push_padded_i64(&mut out, minute, 2);
    out.push(':');
    push_padded_i64(&mut out, second, 2);
    out.push('Z');
    assert(out@ =~= iso_of_unix(ts as int));
    out
}

// ---------------------------------------------------------------------------
// Frontmatter
// ---------------------------------------------------------------------------

/// The frontmatter delimiter line `---`.
pub open spec fn dashes() -> Seq<char> {
    seq!['-', '-', '-']
}

/// The key `updated:` at the start of a frontmatter line.
pub open spec fn updated_key() -> Seq<char> {
    seq!['u', 'p', 'd', 'a', 't', 'e', 'd', ':']
}

/// The value after `updated:`, with whitespace, then double quotes, then single quotes
/// trimmed from both ends.
pub open spec fn updated_value(line: Seq<char>) -> Seq<char> {
    trim_by(trim_by(trim(line.skip(8)), char_pred('"')), char_pred('\''))
}

/// The first non-empty `updated:` value among lines `i..` of the frontmatter, which ends at
/// the next `---` line.
pub open spec fn updated_from(ls: Seq<Seq<char>>, i: int) -> Option<Seq<char>>
    decreases ls.len() - i,
{
    if i >= ls.len() || i < 0 {
        None
    } else if trim(ls[i]) == dashes() {
        None
    } else if ls[i].len() >= 8 && ls[i].take(8) == updated_key() && updated_value(ls[i]).len() > 0 {
        Some(updated_value(ls[i]))
    } else {
        updated_from(ls, i + 1)
    }
}

/// The `updated:` value of a note whose first line is `---`.
pub open spec fn spec_updated(content: Seq<char>) -> Option<Seq<char>> {
    let ls = lines(content);
    if ls.len() == 0 || trim(ls[0]) != dashes() {
        None
    } else {
        updated_from(ls, 1)
    }
}

fn is_dashes(v: &Vec<char>, a: usize, b: usize) -> (r: bool)
    requires
        a <= b <= v.len(),
    ensures
        r == (v@.subrange(a as int, b as int) == dashes()),
{
    let r = b - a == 3 && v[a] == '-' && v[a + 1] == '-' && v[a + 2] == '-';
    proof {
        assert(dashes().len() == 3);
        if r {
            assert(v@.subrange(a as int, b as int) =~= dashes());
        } else if b - a == 3 {
            assert(v@.subrange(a as int, b as int)[0] == v@[a as int]);
            assert(v@.subrange(a as int, b as int)[1] == v@[a + 1]);
            assert(v@.subrange(a as int, b as int)[2] == v@[a + 2]);
        }
    }
    r
}

fn starts_with_updated(v: &Vec<char>, a: usize, b: usize) -> (r: bool)
    requires
        a <= b <= v.len(),
    ensures
        r == (b - a >= 8 && v@.subrange(a as int, b as int).take(8) == updated_key()),
{
    if b - a < 8 {
        return false;
    }
    let r = v[a] == 'u' && v[a + 1] == 'p' && v[a + 2] == 'd' && v[a + 3] == 'a' && v[a + 4] == 't'
        && v[a + 5] == 'e' && v[a + 6] == 'd' && v[a + 7] == ':';
    proof {
        let t = v@.subrange(a as int, b as int).take(8);
        if r {
            assert(t =~= updated_key());
        } else {
            assert(t[0] == v@[a as int]);
            assert(t[1] == v@[a + 1]);
            assert(t[2] == v@[a + 2]);
            assert(t[3] == v@[a + 3]);
            assert(t[4] == v@[a + 4]);
            assert(t[5] == v@[a + 5]);
            assert(t[6] == v@[a + 6]);
            assert(t[7] == v@[a + 7]);
        }
    }
    r
}

/// Extract the `updated:` field value from YAML frontmatter by scanning lines directly.
/// Returns the raw string value so the original timezone is preserved in output.
pub fn extract_updated_from_frontmatter(content: &str) -> (r: Option<String>)
    ensures
        match spec_updated(content@) {
            Some(u) => r matches Some(x) && x@ == u,
            None => r is None,
        },
{
    let v = chars_of(content);
    let ranges = line_ranges_of(&v);
    let ghost ls = lines(content@);
    if ranges.len() == 0 {
        return None;
    }
    let (a0, b0) = ranges[0];
    let (ta, tb) = trim_range(&v, a0, b0, None);
    proof {
        lemma_trim_sub(v@, a0 as int, b0 as int, ws_pred());
        assert(ls[0] == v@.subrange(a0 as int, b0 as int));
    }
    if !is_dashes(&v, ta, tb) {
        return None;
    }
    let mut i: usize = 1;
    while i < ranges.len()
        invariant
            1 <= i <= ranges.len(),
            ls == lines(content@),
            v@ == content@,
            ranges@.len() == ls.len(),
            forall|k: int|
                0 <= k < ranges@.len() ==> (#[trigger] ranges@[k]).0 <= ranges@[k].1 <= v@.len(),
            forall|k: int|
                0 <= k < ranges@.len() ==> (#[trigger] ls[k]) == v@.subrange(
                    ranges@[k].0 as int,
                    ranges@[k].1 as int,
                ),
            spec_updated(content@) == updated_from(ls, i as int),
        decreases ranges.len() - i,
    {
        let (a, b) = ranges[i];
        assert(ls[i as int] == v@.subrange(a as int, b as int));
        let (ta, tb) = trim_range(&v, a, b, None);
        proof {
            lemma_trim_sub(v@, a as int, b as int, ws_pred());
        }
        if is_dashes(&v, ta, tb) {
            return None;
        }
        if starts_with_updated(&v, a, b) {
            let (wa, wb) = trim_range(&v, a + 8, b, None);
            let (qa, qb) = trim_range(&v, wa, wb, Some('"'));
            let (sa, sb) = trim_range(&v, qa, qb, Some('\''));
            proof {
                let line = v@.subrange(a as int, b as int);
                assert(line.skip(8) =~= v@.subrange(a + 8, b as int));
                lemma_trim_sub(v@, a + 8, b as int, ws_pred());
                lemma_trim_sub(v@, wa as int, wb as int, char_pred('"'));
                lemma_trim_sub(v@, qa as int, qb as int, char_pred('\''));
                assert(updated_value(line) == v@.subrange(sa as int, sb as int));
            }
            if sa < sb {
                return Some(string_of_range(&v, sa, sb));
            }
        }
        i += 1;
    }
    None
}

/// Convert a time to seconds since Unix epoch, given as the whole seconds from the epoch to
/// it (`SystemTime::duration_since(UNIX_EPOCH)` and `Duration::as_secs`), or `None` when the
/// time is earlier than the epoch: the seconds as an `i64`, or `None`.
pub fn system_time_to_unix(since_epoch: Option<u64>) -> (r: Option<i64>)
    ensures
        r == match since_epoch {
            Some(s) => Some(s as i64),
            None => None::<i64>,
        },
{
    match since_epoch {
        Some(secs) => Some(secs as i64),
        None => None,
    }
}


// ---------------------------------------------------------------------------
// Calendar round trips
// ---------------------------------------------------------------------------

proof fn lemma_days_before_year_mono(a: int, b: int)
    requires
        1970 <= a <= b,
    ensures
        days_before_year(a) <= days_before_year(b),
        a < b ==> days_before_year(a) + year_length(a) <= days_before_year(b),
    decreases b - a,
{
    if a < b {
        lemma_days_before_year_mono(a, b - 1);
    }
}

proof fn lemma_days_before_year_step(y: int)
    ensures
        days_before_year(y + 1) == days_before_year(y) + year_length(y),
{
}

proof fn lemma_days_before_year_gap(a: int, b: int)
    requires
        a < b,
    ensures
        days_before_year(a) + year_length(a) <= days_before_year(b),
    decreases b - a,
{
    lemma_days_before_year_step(a);
    if a + 1 < b {
        lemma_days_before_year_gap(a + 1, b);
        lemma_year_length(a + 1);
        lemma_days_left_nonneg(a + 1, 1);
    }
}

proof fn lemma_walk_years_to(y0: int, y: int, r: int)
    requires
        0 <= r < year_length(y),
    ensures
        walk_years(y0, days_before_year(y) - days_before_year(y0) + r) == (y, r),
    decreases (if y0 < y { y - y0 } else { y0 - y }),
{
    if y0 < y {
        lemma_days_before_year_step(y0);
        lemma_days_before_year_gap(y0, y);
        lemma_walk_years_to(y0 + 1, y, r);
    } else if y < y0 {
        lemma_days_before_year_step(y0 - 1);
        lemma_days_before_year_gap(y, y0);
        lemma_walk_years_to(y0 - 1, y, r);
    }
}

proof fn lemma_walk_months_to(y: int, m0: int, m: int, d: int)
    requires
        1 <= m0 <= m <= 12,
        0 <= d < spec_days_in_month(y, m),
    ensures
        walk_months(y, m0, days_before_month(y, m) - days_before_month(y, m0) + d) == (m, d),
    decreases m - m0,
{
    if m0 < m {
        lemma_walk_months_to(y, m0 + 1, m, d);
        lemma_days_before_month_mono(y, m0 + 1, m);
    }
}

proof fn lemma_days_before_month_mono(y: int, a: int, b: int)
    requires
        1 <= a <= b,
    ensures
        days_before_month(y, a) <= days_before_month(y, b),
    decreases b - a,
{
    if a < b {
        lemma_days_before_month_mono(y, a, b - 1);
    }
}

proof fn lemma_walk_years_from(y0: int, rem: int)
    ensures
        rem >= 0 ==> walk_years(y0, rem).0 >= y0,
        0 <= walk_years(y0, rem).1 < year_length(walk_years(y0, rem).0),
        days_before_year(walk_years(y0, rem).0) - days_before_year(y0) + walk_years(y0, rem).1
            == rem,
    decreases (if rem < 0 { 400 - rem } else { rem }),
{
    if rem < 0 {
        lemma_days_before_year_step(y0 - 1);
        lemma_walk_years_from(y0 - 1, rem + year_length(y0 - 1));
    } else if rem >= year_length(y0) {
        lemma_days_before_year_step(y0);
        lemma_walk_years_from(y0 + 1, rem - year_length(y0));
    }
}

/// A calendar date survives the trip to its day number and back:
/// `civil_from_days`, which `unix_to_iso8601` writes out, gives back the date whose day
/// number `parse_iso8601_to_unix` computes.
pub proof fn law_calendar_round_trip(y: int, m: int, d: int)
    requires
        1 <= m <= 12,
        1 <= d <= spec_days_in_month(y, m),
    ensures
        civil_from_days(days_from_epoch(y, m, d)) == (y, m, d),
{
    lemma_months_fill_year(y, m);
    lemma_months_fill_year(y, m + 1);
    lemma_days_left_nonneg(y, m + 1);
    lemma_days_before_month_mono(y, 1, m);
    lemma_year_length(y);
    assert(days_before_month(y, m + 1) == days_before_month(y, m) + spec_days_in_month(y, m));
    lemma_walk_years_to(1970, y, days_before_month(y, m) + d - 1);
    lemma_walk_months_to(y, 1, m, d - 1);
}

/// A timestamp survives the trip through the fields that `unix_to_iso8601` writes: the
/// date is a valid calendar date and the day number and clock time that
/// `parse_iso8601_to_unix` computes from the fields give back the timestamp.
pub proof fn law_timestamp_round_trip(ts: int)
    ensures
        ({
            let t = ts % 86400;
            let (y, m, d) = civil_from_days((ts - t) / 86400);
            &&& 1 <= m <= 12
            &&& 1 <= d <= spec_days_in_month(y, m)
            &&& days_from_epoch(y, m, d) * 86400 + (t / 3600) * 3600 + ((t % 3600) / 60) * 60 + t
                % 60 == ts
        }),
{
    let t = ts % 86400;
    let days = (ts - t) / 86400;
    assert(days * 86400 + t == ts) by (nonlinear_arith)
        requires
            t == ts % 86400,
            days == (ts - t) / 86400,
    ;
    lemma_walk_years_from(1970, days);
    let (y, rem) = walk_years(1970, days);
    lemma_year_length(y);
    lemma_walk_months_from(y, 1, rem);
    assert(t == (t / 3600) * 3600 + ((t % 3600) / 60) * 60 + t % 60) by (nonlinear_arith)
        requires
            0 <= t < 86400,
    {
        vstd::arithmetic::div_mod::lemma_mod_mod(t, 60, 60);
        vstd::arithmetic::div_mod::lemma_fundamental_div_mod(t, 3600);
        vstd::arithmetic::div_mod::lemma_fundamental_div_mod(t % 3600, 60);
    }
}


// ---------------------------------------------------------------------------
// ISO text round trip
// ---------------------------------------------------------------------------

/// `YYYY-MM-DDTHH:MM:SSZ` for the given fields, as `{:04}` and `{:02}` write them.
pub open spec fn iso_text(y: nat, mo: nat, d: nat, h: nat, mi: nat, se: nat) -> Seq<char> {
    padded(y, 4) + seq!['-'] + padded(mo, 2) + seq!['-'] + padded(d, 2) + seq!['T'] + padded(h, 2)
        + seq![':'] + padded(mi, 2) + seq![':'] + padded(se, 2) + seq!['Z']
}

proof fn lemma_digit_bytes(t: Seq<char>, bt: Seq<u8>)
    requires
        all_digits(t),
        bt.len() == t.len(),
        forall|i: int| 0 <= i < t.len() ==> bt[i] == #[trigger] t[i] as u8,
    ensures
        all_digit_bytes(bt),
        bytes_value(bt) == digits_value(t),
    decreases t.len(),
{
    assert forall|i: int| 0 <= i < bt.len() implies is_digit_byte(#[trigger] bt[i]) by {
        assert(is_digit(t[i]));
        assert(bt[i] == t[i] as u8);
    }
    if t.len() > 0 {
        let t2 = t.drop_last();
        let b2 = bt.drop_last();
        assert(all_digits(t2)) by {
            assert forall|i: int| 0 <= i < t2.len() implies is_digit(#[trigger] t2[i]) by {
                assert(t2[i] == t[i]);
            }
        }
        assert forall|i: int| 0 <= i < t2.len() implies b2[i] == #[trigger] t2[i] as u8 by {
            assert(t2[i] == t[i] && b2[i] == bt[i]);
        }
        lemma_digit_bytes(t2, b2);
        assert(is_digit(t.last()));
        assert(bt.last() == t.last() as u8);
    }
}

/// The bytes `lo..hi` of `b` hold the `w` digits of `n` that `c` holds there.
proof fn lemma_field_of_digits(c: Seq<char>, b: Seq<u8>, lo: int, n: nat, w: nat)
    requires
        1 <= w <= 4,
        n < pow10(w),
        0 <= lo,
        lo + w <= c.len(),
        b.len() == c.len(),
        forall|i: int| 0 <= i < c.len() ==> b[i] == #[trigger] c[i] as u8,
        c.subrange(lo, lo + w) == fixed_digits(n, w),
    ensures
        field(b, lo, lo + w) == Some(n as int),
{
    lemma_fixed_digits_value(n, w);
    let t = c.subrange(lo, lo + w);
    let bt = b.subrange(lo, lo + w);
    assert forall|i: int| 0 <= i < t.len() implies bt[i] == #[trigger] t[i] as u8 by {
        assert(bt[i] == b[lo + i] && t[i] == c[lo + i]);
    }
    lemma_digit_bytes(t, bt);
    lemma_pow10_pos(w);
    vstd::arithmetic::div_mod::lemma_small_mod(n, pow10(w));
    reveal_with_fuel(pow10, 5);
    assert(is_digit_byte(bt[0]));
}

proof fn lemma_days_before_year_bound(y: int)
    requires
        y >= 1970,
    ensures
        days_before_year(y) <= 366 * (y - 1970),
    decreases y - 1970,
{
    if y > 1970 {
        lemma_days_before_year_bound(y - 1);
    }
}

/// The bytes of an ISO text: the slices the parser takes are at character boundaries, and
/// the fields read back as the numbers written.
#[verifier::rlimit(40)]
proof fn lemma_iso_text_bytes(y: nat, mo: nat, d: nat, h: nat, mi: nat, se: nat)
    requires
        y <= 9999,
        mo < 100,
        d < 100,
        h < 100,
        mi < 100,
        se < 100,
    ensures
        ({
            let b = vstd::utf8::encode_utf8(iso_text(y, mo, d, h, mi, se));
            &&& b.len() == 20
            &&& b[10] == 84u8
            &&& field(b, 0, 4) == Some(y as int)
            &&& field(b, 5, 7) == Some(mo as int)
            &&& field(b, 8, 10) == Some(d as int)
            &&& field(b, 11, 13) == Some(h as int)
            &&& field(b, 14, 16) == Some(mi as int)
            &&& field(b, 17, 19) == Some(se as int)
            &&& tz_offset(b) == Some(0int)
            &&& iso_slices_ok(b)
        }),
{
    reveal_with_fuel(pow10, 5);
    lemma_padded_fixed(y, 4);
    lemma_padded_fixed(mo, 2);
    lemma_padded_fixed(d, 2);
    lemma_padded_fixed(h, 2);
    lemma_padded_fixed(mi, 2);
    lemma_padded_fixed(se, 2);
    lemma_fixed_digits_value(y, 4);
    lemma_fixed_digits_value(mo, 2);
    lemma_fixed_digits_value(d, 2);
    lemma_fixed_digits_value(h, 2);
    lemma_fixed_digits_value(mi, 2);
    lemma_fixed_digits_value(se, 2);
    let s = iso_text(y, mo, d, h, mi, se);
    assert(s.len() == 20);
    assert(s.subrange(0, 4) =~= fixed_digits(y, 4));
    assert(s.subrange(5, 7) =~= fixed_digits(mo, 2));
    assert(s.subrange(8, 10) =~= fixed_digits(d, 2));
    assert(s.subrange(11, 13) =~= fixed_digits(h, 2));
    assert(s.subrange(14, 16) =~= fixed_digits(mi, 2));
    assert(s.subrange(17, 19) =~= fixed_digits(se, 2));
    assert(vstd::utf8::is_ascii_chars(s)) by {
        assert forall|i: int| 0 <= i < s.len() implies '\0' <= #[trigger] s[i] <= '\u{7f}' by {
            if i < 4 {
                assert(s[i] == s.subrange(0, 4)[i]);
                assert(is_digit(s.subrange(0, 4)[i]));
            } else if 5 <= i < 7 {
                assert(s[i] == s.subrange(5, 7)[i - 5]);
                assert(is_digit(s.subrange(5, 7)[i - 5]));
            } else if 8 <= i < 10 {
                assert(s[i] == s.subrange(8, 10)[i - 8]);
                assert(is_digit(s.subrange(8, 10)[i - 8]));
            } else if 11 <= i < 13 {
                assert(s[i] == s.subrange(11, 13)[i - 11]);
                assert(is_digit(s.subrange(11, 13)[i - 11]));
            } else if 14 <= i < 16 {
                assert(s[i] == s.subrange(14, 16)[i - 14]);
                assert(is_digit(s.subrange(14, 16)[i - 14]));
            } else if 17 <= i < 19 {
                assert(s[i] == s.subrange(17, 19)[i - 17]);
                assert(is_digit(s.subrange(17, 19)[i - 17]));
            }
        }
    }
    vstd::utf8::is_ascii_chars_encode_utf8(s);
    let b = vstd::utf8::encode_utf8(s);
    assert forall|i: int| 0 <= i < s.len() implies b[i] == #[trigger] s[i] as u8 by {}
    lemma_field_of_digits(s, b, 0, y, 4);
    lemma_field_of_digits(s, b, 5, mo, 2);
    lemma_field_of_digits(s, b, 8, d, 2);
    lemma_field_of_digits(s, b, 11, h, 2);
    lemma_field_of_digits(s, b, 14, mi, 2);
    lemma_field_of_digits(s, b, 17, se, 2);
    assert(b[10] == s[10] as u8);
    assert(b[19] == s[19] as u8);
    assert forall|i: int| 0 <= i <= 20 implies cb(b, i) by {
        if i < 20 {
            assert(b[i] == s[i] as u8);
            vstd::utf8::is_char_boundary_iff_not_is_continuation_byte(b, i);
        } else {
            vstd::utf8::is_char_boundary_start_end_of_seq(b);
        }
    }
    assert(b.subrange(19, 20) =~= seq![90u8]);
    assert(tz_slices_ok(b));
    reveal_with_fuel(slices_ok_from, 8);
}

proof fn lemma_clock_fields(days: int, h: int, mi: int, se: int)
    requires
        0 <= h < 24,
        0 <= mi < 60,
        0 <= se < 60,
    ensures
        ({
            let t = h * 3600 + mi * 60 + se;
            let ts = days * 86400 + t;
            &&& ts % 86400 == t
            &&& (ts - t) / 86400 == days
            &&& t / 3600 == h
            &&& (t % 3600) / 60 == mi
            &&& t % 60 == se
        }),
{
    let t = h * 3600 + mi * 60 + se;
    let ts = days * 86400 + t;
    vstd::arithmetic::div_mod::lemma_fundamental_div_mod_converse(ts, 86400, days, t);
    vstd::arithmetic::div_mod::lemma_fundamental_div_mod_converse(ts - t, 86400, days, 0);
    vstd::arithmetic::div_mod::lemma_fundamental_div_mod_converse(t, 3600, h, mi * 60 + se);
    vstd::arithmetic::div_mod::lemma_fundamental_div_mod_converse(mi * 60 + se, 60, mi, se);
    vstd::arithmetic::div_mod::lemma_fundamental_div_mod_converse(t, 60, h * 60 + mi, se);
}

proof fn lemma_days_before_year_low(y: int)
    requires
        y <= 1970,
    ensures
        -366 * (1970 - y) <= days_before_year(y) <= 0,
    decreases 1970 - y,
{
    if y < 1970 {
        lemma_days_before_year_low(y + 1);
    }
}

/// A timestamp written as `YYYY-MM-DDTHH:MM:SSZ` (a calendar date of a year from 0 through
/// 9999, a time of day) survives the round trip through its text: `parse_iso8601_to_unix`
/// can read it, what it reads meets what `unix_to_iso8601` requires (and is not negative
/// from 1970 on), and `unix_to_iso8601` of it gives the same text back.
pub proof fn law_iso_text_round_trip(y: nat, mo: nat, d: nat, h: nat, mi: nat, se: nat)
    requires
        y <= 9999,
        1 <= mo <= 12,
        1 <= d <= spec_days_in_month(y as int, mo as int),
        h < 24,
        mi < 60,
        se < 60,
    ensures
        ({
            let s = iso_text(y, mo, d, h, mi, se);
            let b = vstd::utf8::encode_utf8(s);
            &&& iso_slices_ok(b)
            &&& iso_parse(b) matches Some(ts) && iso_of_unix(ts as int) == s && ts - ts % 86400
                >= i64::MIN && (y >= 1970 ==> ts >= 0)
        }),
{
    lemma_iso_text_bytes(y, mo, d, h, mi, se);
    let s = iso_text(y, mo, d, h, mi, se);
    let b = vstd::utf8::encode_utf8(s);
    let days = days_from_epoch(y as int, mo as int, d as int);
    if y >= 1970 {
        lemma_days_before_year_mono(1970, y as int);
        lemma_days_before_year_bound(y as int);
    } else {
        lemma_days_before_year_low(y as int);
    }
    lemma_days_before_month_mono(y as int, 1, mo as int);
    lemma_months_fill_year(y as int, mo as int);
    lemma_days_left_nonneg(y as int, mo as int);
    lemma_year_length(y as int);
    assert(-366 * 1970 <= days <= 366 * 10000);
    assert(y >= 1970 ==> days >= 0);
    let t = h * 3600 + mi * 60 + se;
    let ts = days * 86400 + t;
    assert(iso_parse(b) == Some(ts as i64));
    lemma_clock_fields(days, h as int, mi as int, se as int);
    law_calendar_round_trip(y as int, mo as int, d as int);
    assert(iso_of_unix(ts) =~= s);
}

/// The line that `updated_from` takes its value from: the first line from `i` on that has
/// a non-empty `updated:` value, with no `---` line from `i` up to it.
proof fn lemma_updated_line(ls: Seq<Seq<char>>, i: int) -> (k: int)
    requires
        0 <= i,
        updated_from(ls, i) is Some,
    ensures
        i <= k < ls.len(),
        forall|m: int| i <= m <= k ==> trim(#[trigger] ls[m]) != dashes(),
        forall|m: int|
            i <= m < k ==> !((#[trigger] ls[m]).len() >= 8 && ls[m].take(8) == updated_key()
                && updated_value(ls[m]).len() > 0),
        ls[k].len() >= 8,
        ls[k].take(8) == updated_key(),
        updated_from(ls, i) == Some(updated_value(ls[k])),
    decreases ls.len() - i,
{
    if ls[i].len() >= 8 && ls[i].take(8) == updated_key() && updated_value(ls[i]).len() > 0 {
        i
    } else {
        lemma_updated_line(ls, i + 1)
    }
}

/// The `updated:` value comes from inside the frontmatter: the note's first line is `---`,
/// and the value is that of the first line with a non-empty `updated:` value, which lies
/// after the first line and before any later line that trims to `---`; a line past that
/// closing fence never supplies it.
pub proof fn law_updated_inside_frontmatter(content: Seq<char>)
    ensures
        spec_updated(content) matches Some(v) ==> ({
            let ls = lines(content);
            &&& trim(ls[0]) == dashes()
            &&& exists|k: int|
                1 <= k < ls.len() && (forall|m: int| 1 <= m <= k ==> trim(#[trigger] ls[m]) != dashes())
                    && (forall|m: int|
                    1 <= m < k ==> !((#[trigger] ls[m]).len() >= 8 && ls[m].take(8) == updated_key()
                        && updated_value(ls[m]).len() > 0)) && ls[k].len() >= 8 && ls[k].take(8)
                    == updated_key() && v == updated_value(ls[k])
        }),
{
    if spec_updated(content) is Some {
        let k = lemma_updated_line(lines(content), 1);
    }
}

} // verus!

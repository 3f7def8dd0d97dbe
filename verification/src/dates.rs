//! Calendar arithmetic and date formatting.
//!
//! The store keeps message timestamps as integer seconds or nanoseconds
//! since 2001-01-01 00:00:00 UTC.  Chapter keys and date markers need the
//! civil year, month and day of each timestamp in the caller's local time
//! zone; the conversion is computed and proved here, against a day-number
//! specification, so chapter boundaries rest on verified arithmetic.

use vstd::prelude::*;
use crate::text::push_str_chars;

verus! {

/// Seconds between the Unix epoch and the store's 2001-01-01 epoch.
pub const STORE_EPOCH_UNIX_SECONDS: i64 = 978307200;

/// Raw store timestamps at or above this value hold nanoseconds since the
/// store epoch; below it they hold plain seconds.
pub const NANOSECONDS_THRESHOLD: i64 = 1_000_000_000_000;

pub open spec fn is_leap_year(y: int) -> bool {
    (y % 4 == 0 && y % 100 != 0) || y % 400 == 0
}

pub open spec fn days_in_month(y: int, m: int) -> int {
    if m == 2 {
        if is_leap_year(y) {
            29
        } else {
            28
        }
    } else if m == 4 || m == 6 || m == 9 || m == 11 {
        30
    } else {
        31
    }
}

pub open spec fn days_in_year(y: int) -> int {
    if is_leap_year(y) {
        366
    } else {
        365
    }
}

/// Days from 1970-01-01 to the first day of year `y`.
pub open spec fn days_before_year(y: int) -> int
    decreases y when y >= 1970
{
    if y <= 1970 {
        0
    } else {
        days_before_year(y - 1) + days_in_year(y - 1)
    }
}

/// Days from the first day of year `y` to the first day of its month `m`.
pub open spec fn days_before_month(y: int, m: int) -> int
    decreases m when m >= 1
{
    if m <= 1 {
        0
    } else {
        days_before_month(y, m - 1) + days_in_month(y, m - 1)
    }
}

/// Day index of the civil date `y-m-d`: days since 1970-01-01.
pub open spec fn day_number(y: int, m: int, d: int) -> int {
    days_before_year(y) + days_before_month(y, m) + (d - 1)
}

pub open spec fn valid_date(y: int, m: int, d: int) -> bool {
    y >= 1970 && 1 <= m <= 12 && 1 <= d <= days_in_month(y, m)
}

proof fn lemma_days_before_year_lower(y: int)
    requires
        y >= 1970,
    ensures
        days_before_year(y) >= 365 * (y - 1970),
    decreases y,
{
    if y > 1970 {
        lemma_days_before_year_lower(y - 1);
    }
}

/// The months of a year account for exactly its days.
proof fn lemma_months_cover_year(y: int)
    ensures
        days_before_month(y, 13) == days_in_year(y),
{
    reveal_with_fuel(days_before_month, 13);
}

fn leap_year(y: i64) -> (r: bool)
    requires
        y >= 1970,
    ensures
        r == is_leap_year(y as int),
{
    (y % 4 == 0 && y % 100 != 0) || y % 400 == 0
}

fn days_in_month_exec(y: i64, m: u8) -> (r: i64)
    requires
        y >= 1970,
        1 <= m <= 12,
    ensures
        r == days_in_month(y as int, m as int),
        28 <= r <= 31,
{
    if m == 2 {
        if leap_year(y) {
            29
        } else {
            28
        }
    } else if m == 4 || m == 6 || m == 9 || m == 11 {
        30
    } else {
        31
    }
}

fn days_in_year_exec(y: i64) -> (r: i64)
    requires
        y >= 1970,
    ensures
        r == days_in_year(y as int),
        365 <= r <= 366,
{
    if leap_year(y) {
        366
    } else {
        365
    }
}

/// The civil date whose day index is `days`.
pub fn civil_from_days(days: i64) -> (r: (i64, u8, u8))
    requires
        0 <= days,
    ensures
        valid_date(r.0 as int, r.1 as int, r.2 as int),
        day_number(r.0 as int, r.1 as int, r.2 as int) == days,
{
    let mut y: i64 = 1970;
    let mut rem: i64 = days;
    while days_in_year_exec(y) <= rem
        invariant
            1970 <= y,
            0 <= rem,
            days_before_year(y as int) == days - rem,
            365 * (y - 1970) <= days,
        decreases rem,
    {
        let diy = days_in_year_exec(y);
        rem = rem - diy;
        y = y + 1;
        proof {
            lemma_days_before_year_lower(y as int);
        }
    }
    proof {
        assert(rem < days_in_year(y as int));
    }
    let mut m: u8 = 1;
    while days_in_month_exec(y, m) <= rem
        invariant
            1970 <= y,
            1 <= m <= 12,
            0 <= rem,
            days_before_year(y as int) + days_before_month(y as int, m as int) == days - rem,
            days_before_month(y as int, m as int) + rem < days_in_year(y as int),
        decreases rem,
    {
        let dim = days_in_month_exec(y, m);
        rem = rem - dim;
        proof {
            lemma_months_cover_year(y as int);
            if m == 12 {
                assert(days_before_month(y as int, 13int)
                    == days_before_month(y as int, 12int) + days_in_month(y as int, 12int));
                assert(false);
            }
        }
        m = m + 1;
    }
    let d: u8 = (rem + 1) as u8;
    (y, m, d)
}

/// Seconds since the store epoch held by a raw timestamp, under the store's
/// nanoseconds-or-seconds convention.
pub open spec fn store_seconds(stamp: int) -> int {
    if stamp >= NANOSECONDS_THRESHOLD {
        stamp / 1_000_000_000
    } else {
        stamp
    }
}

/// Day index of a raw store timestamp seen from a local time zone that is
/// `tz_offset` seconds ahead of UTC.
pub open spec fn local_day_index(stamp: int, tz_offset: int) -> int {
    (store_seconds(stamp) + STORE_EPOCH_UNIX_SECONDS + tz_offset) / 86400
}

/// The local civil date of a raw store timestamp.
pub fn local_civil_date(stamp: i64, tz_offset: i64) -> (r: (i64, u8, u8))
    requires
        0 <= stamp,
        -86400 < tz_offset < 86400,
    ensures
        valid_date(r.0 as int, r.1 as int, r.2 as int),
        day_number(r.0 as int, r.1 as int, r.2 as int) == local_day_index(stamp as int, tz_offset as int),
{
    let secs = if stamp >= NANOSECONDS_THRESHOLD {
        stamp / 1_000_000_000
    } else {
        stamp
    };
    let total = secs + STORE_EPOCH_UNIX_SECONDS + tz_offset;
    let days = total / 86400;
    civil_from_days(days)
}

/// Relies on chrono's `TimeZone::timestamp_opt` for `Local` and
/// `FixedOffset::local_minus_utc`: the local offset of any moment is a fixed
/// offset strictly between -86400 and 86400 seconds.  The value depends on
/// the machine's time zone, so nothing more is claimed of it.
#[verifier::external_body]
pub(crate) fn local_utc_offset(unix_seconds: i64) -> (r: i64)
    ensures
        -86400 < r < 86400,
{
    chrono::TimeZone::timestamp_opt(&chrono::Local, unix_seconds, 0)
        .earliest()
        .map(|dt| chrono::Offset::fix(dt.offset()).local_minus_utc() as i64)
        .unwrap_or(0)
}

/// Day index `day` falls inside month `m` of year `y`.
pub open spec fn in_month(day: int, y: int, m: int) -> bool {
    &&& y >= 1970
    &&& 1 <= m <= 12
    &&& days_before_year(y) + days_before_month(y, m) <= day
    &&& day < days_before_year(y) + days_before_month(y, m) + days_in_month(y, m)
}

proof fn lemma_dby_monotone(y1: int, y2: int)
    requires
        1970 <= y1 <= y2,
    ensures
        days_before_year(y1) <= days_before_year(y2),
    decreases y2,
{
    if y1 < y2 {
        lemma_dby_monotone(y1, y2 - 1);
    }
}

proof fn lemma_dbm_monotone(y: int, a: int, b: int)
    requires
        1 <= a <= b,
    ensures
        days_before_month(y, a) <= days_before_month(y, b),
    decreases b,
{
    if a < b {
        lemma_dbm_monotone(y, a, b - 1);
    }
}

proof fn lemma_month_range_in_year(y: int, m: int)
    requires
        1 <= m <= 12,
    ensures
        days_before_month(y, m) + days_in_month(y, m) <= days_in_year(y),
        0 <= days_before_month(y, m),
{
    lemma_months_cover_year(y);
    lemma_dbm_monotone(y, m + 1, 13);
    lemma_dbm_monotone(y, 1, m);
}

/// A day index falls inside exactly one calendar month.
pub proof fn lemma_in_month_unique(day: int, y1: int, m1: int, y2: int, m2: int)
    requires
        in_month(day, y1, m1),
        in_month(day, y2, m2),
    ensures
        y1 == y2,
        m1 == m2,
{
    lemma_month_range_in_year(y1, m1);
    lemma_month_range_in_year(y2, m2);
    if y1 < y2 {
        assert(days_before_year(y1 + 1) == days_before_year(y1) + days_in_year(y1));
        lemma_dby_monotone(y1 + 1, y2);
        assert(false);
    }
    if y2 < y1 {
        assert(days_before_year(y2 + 1) == days_before_year(y2) + days_in_year(y2));
        lemma_dby_monotone(y2 + 1, y1);
        assert(false);
    }
    if m1 < m2 {
        assert(days_before_month(y1, m1 + 1) == days_before_month(y1, m1)
            + days_in_month(y1, m1));
        lemma_dbm_monotone(y1, m1 + 1, m2);
        assert(false);
    }
    if m2 < m1 {
        assert(days_before_month(y1, m2 + 1) == days_before_month(y1, m2)
            + days_in_month(y1, m2));
        lemma_dbm_monotone(y1, m2 + 1, m1);
        assert(false);
    }
}

/// Calendar months are ordered as their days are: an earlier day's month
/// cannot come after a later day's.
pub proof fn lemma_in_month_ordered(d1: int, y1: int, m1: int, d2: int, y2: int, m2: int)
    requires
        in_month(d1, y1, m1),
        in_month(d2, y2, m2),
        d1 <= d2,
    ensures
        y1 < y2 || (y1 == y2 && m1 <= m2),
{
    lemma_month_range_in_year(y1, m1);
    lemma_month_range_in_year(y2, m2);
    if y2 < y1 {
        assert(days_before_year(y2 + 1) == days_before_year(y2) + days_in_year(y2));
        lemma_dby_monotone(y2 + 1, y1);
        assert(false);
    } else if y2 == y1 && m2 < m1 {
        assert(days_before_month(y1, m2 + 1) == days_before_month(y1, m2)
            + days_in_month(y1, m2));
        lemma_dbm_monotone(y1, m2 + 1, m1);
        assert(false);
    }
}

/// A later store timestamp never yields an earlier local day, provided the
/// two timestamps use the same seconds-or-nanoseconds convention.
pub proof fn lemma_local_day_index_monotone(d1: int, d2: int, tz: int)
    requires
        0 <= d1 <= d2,
        d2 < NANOSECONDS_THRESHOLD || d1 >= NANOSECONDS_THRESHOLD,
    ensures
        local_day_index(d1, tz) <= local_day_index(d2, tz),
{
    if d1 >= NANOSECONDS_THRESHOLD {
        vstd::arithmetic::div_mod::lemma_div_is_ordered(d1, d2, 1_000_000_000);
    }
    vstd::arithmetic::div_mod::lemma_div_is_ordered(
        store_seconds(d1) + STORE_EPOCH_UNIX_SECONDS + tz,
        store_seconds(d2) + STORE_EPOCH_UNIX_SECONDS + tz,
        86400,
    );
}

// ---------------------------------------------------------------------------
// Formatting.
// ---------------------------------------------------------------------------

pub open spec fn digit_char(d: int) -> char {
    if d == 0 {
        '0'
    } else if d == 1 {
        '1'
    } else if d == 2 {
        '2'
    } else if d == 3 {
        '3'
    } else if d == 4 {
        '4'
    } else if d == 5 {
        '5'
    } else if d == 6 {
        '6'
    } else if d == 7 {
        '7'
    } else if d == 8 {
        '8'
    } else {
        '9'
    }
}

/// The decimal digits of `n`, most significant first.
pub open spec fn dec_digits(n: int) -> Seq<char>
    decreases n when n >= 0
{
    if n < 10 {
        seq![digit_char(n)]
    } else {
        dec_digits(n / 10) + seq![digit_char(n % 10)]
    }
}

fn push_digit(out: &mut Vec<char>, d: u64)
    requires
        d < 10,
    ensures
        final(out)@ == old(out)@ + seq![digit_char(d as int)],
{
    let c = if d == 0 {
        '0'
    } else if d == 1 {
        '1'
    } else if d == 2 {
        '2'
    } else if d == 3 {
        '3'
    } else if d == 4 {
        '4'
    } else if d == 5 {
        '5'
    } else if d == 6 {
        '6'
    } else if d == 7 {
        '7'
    } else if d == 8 {
        '8'
    } else {
        '9'
    };
    out.push(c);
    proof {
        assert(out@ =~= old(out)@ + seq![digit_char(d as int)]);
    }
}

/// Append the decimal digits of `n`.
pub fn push_decimal(out: &mut Vec<char>, n: u64)
    ensures
        final(out)@ == old(out)@ + dec_digits(n as int),
    decreases n,
{
    if n < 10 {
        push_digit(out, n);
    } else {
        proof {
            assert(n / 10 < n) by (nonlinear_arith)
                requires n >= 10
            ;
        }
        push_decimal(out, n / 10);
        push_digit(out, n % 10);
        proof {
            assert(old(out)@ + dec_digits(n as int / 10) + seq![digit_char(n as int % 10)]
                =~= old(out)@ + dec_digits(n as int));
        }
    }
}

/// Two-digit, zero-padded month field.
pub open spec fn month_two_digits(m: int) -> Seq<char> {
    if m < 10 {
        seq!['0'] + dec_digits(m)
    } else {
        dec_digits(m)
    }
}

/// Space-padded day field, two characters wide.
pub open spec fn day_padded(d: int) -> Seq<char> {
    if d < 10 {
        seq![' '] + dec_digits(d)
    } else {
        dec_digits(d)
    }
}

pub open spec fn month_name_spec(m: int) -> Seq<char> {
    if m == 1 {
        "January"@
    } else if m == 2 {
        "February"@
    } else if m == 3 {
        "March"@
    } else if m == 4 {
        "April"@
    } else if m == 5 {
        "May"@
    } else if m == 6 {
        "June"@
    } else if m == 7 {
        "July"@
    } else if m == 8 {
        "August"@
    } else if m == 9 {
        "September"@
    } else if m == 10 {
        "October"@
    } else if m == 11 {
        "November"@
    } else {
        "December"@
    }
}

/// The English name of month `m`.
pub fn month_name(m: u8) -> (r: &'static str)
    requires
        1 <= m <= 12,
    ensures
        r@ == month_name_spec(m as int),
{
    if m == 1 {
        "January"
    } else if m == 2 {
        "February"
    } else if m == 3 {
        "March"
    } else if m == 4 {
        "April"
    } else if m == 5 {
        "May"
    } else if m == 6 {
        "June"
    } else if m == 7 {
        "July"
    } else if m == 8 {
        "August"
    } else if m == 9 {
        "September"
    } else if m == 10 {
        "October"
    } else if m == 11 {
        "November"
    } else {
        "December"
    }
}

/// A chapter's key: `ch-` then the year, a dash, and the zero-padded month.
/// Keys sort lexicographically in chronological order.
pub open spec fn chapter_key_spec(y: int, m: int) -> Seq<char> {
    "ch-"@ + dec_digits(y) + "-"@ + month_two_digits(m)
}

pub fn chapter_key(y: i64, m: u8) -> (r: String)
    requires
        1970 <= y,
        1 <= m <= 12,
    ensures
        r@ == chapter_key_spec(y as int, m as int),
{
    let mut out: Vec<char> = Vec::new();
    push_str_chars(&mut out, "ch-");
    push_decimal(&mut out, y as u64);
    push_str_chars(&mut out, "-");
    if m < 10 {
        out.push('0');
    }
    push_decimal(&mut out, m as u64);
    proof {
        assert(out@ =~= chapter_key_spec(y as int, m as int));
    }
    crate::text::string_from_chars(&out)
}

/// A chapter's heading line: the month's full name and the year.
pub open spec fn chapter_heading_spec(y: int, m: int) -> Seq<char> {
    "\\chapter{"@ + month_name_spec(m) + " "@ + dec_digits(y) + "}\n\n"@
}

pub fn chapter_heading(y: i64, m: u8) -> (r: String)
    requires
        1970 <= y,
        1 <= m <= 12,
    ensures
        r@ == chapter_heading_spec(y as int, m as int),
{
    let mut out: Vec<char> = Vec::new();
    push_str_chars(&mut out, "\\chapter{");
    push_str_chars(&mut out, month_name(m));
    push_str_chars(&mut out, " ");
    push_decimal(&mut out, y as u64);
    push_str_chars(&mut out, "}\n\n");
    proof {
        assert(out@ =~= chapter_heading_spec(y as int, m as int));
    }
    crate::text::string_from_chars(&out)
}

/// A message's date marker text: full month name, space-padded day, year.
pub open spec fn date_marker_spec(y: int, m: int, d: int) -> Seq<char> {
    month_name_spec(m) + " "@ + day_padded(d) + ", "@ + dec_digits(y)
}

pub fn date_marker(y: i64, m: u8, d: u8) -> (r: String)
    requires
        1970 <= y,
        1 <= m <= 12,
        1 <= d <= 31,
    ensures
        r@ == date_marker_spec(y as int, m as int, d as int),
{
    let mut out: Vec<char> = Vec::new();
    push_str_chars(&mut out, month_name(m));
    push_str_chars(&mut out, " ");
    if d < 10 {
        out.push(' ');
    }
    push_decimal(&mut out, d as u64);
    push_str_chars(&mut out, ", ");
    push_decimal(&mut out, y as u64);
    proof {
        assert(out@ =~= date_marker_spec(y as int, m as int, d as int));
    }
    crate::text::string_from_chars(&out)
}

} // verus!

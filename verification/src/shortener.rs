//! The shortener: short codes, the store of mappings from code to URL, and
//! the timestamps that mappings carry.
use vstd::prelude::*;

use vstd::arithmetic::div_mod::{
    lemma_fundamental_div_mod, lemma_fundamental_div_mod_converse_div,
    lemma_fundamental_div_mod_converse_mod, lemma_mod_mod, lemma_mod_pos_bound,
};

use rand::Rng;

use crate::scanner::{normalize_url, normalized, ScanResult, ScanResultView, texts};
use crate::text::{
    first_index, lemma_lex_append, lemma_lex_prefix, lemma_zero_padded_order, lex_less, pow10,
    push_padded, zero_padded,
};

verus! {

broadcast use vstd::string::group_string_axioms;

// ---------------------------------------------------------------------------
// Calendar
// ---------------------------------------------------------------------------

/// The Gregorian leap-year rule.
pub open spec fn is_leap(year: int) -> bool {
    (year % 4 == 0 && year % 100 != 0) || year % 400 == 0
}

/// The number of days of a year.
pub open spec fn days_in_year(year: int) -> nat {
    if is_leap(year) {
        366
    } else {
        365
    }
}

/// The number of days from 1970-01-01 to the first day of `year`.
pub open spec fn days_before_year(year: int) -> nat
    decreases year - 1970,
{
    if year <= 1970 {
        0
    } else {
        days_before_year(year - 1) + days_in_year(year - 1)
    }
}

/// The number of days of a month (1 to 12) of a year.
pub open spec fn days_in_month(year: int, month: int) -> nat {
    if month == 2 {
        if is_leap(year) {
            29
        } else {
            28
        }
    } else if month == 4 || month == 6 || month == 9 || month == 11 {
        30
    } else {
        31
    }
}

/// The number of days of a year before the first day of `month`.
pub open spec fn days_before_month(year: int, month: int) -> nat
    decreases month,
{
    if month <= 1 {
        0
    } else {
        days_before_month(year, month - 1) + days_in_month(year, month - 1)
    }
}

/// A calendar date and time of day, in UTC.
pub struct DateTime {
    pub year: nat,
    pub month: nat,
    pub day: nat,
    pub hour: nat,
    pub minute: nat,
    pub second: nat,
}

/// A date and time that exists, from 1970 on.
pub open spec fn is_valid_datetime(dt: DateTime) -> bool {
    &&& dt.year >= 1970
    &&& 1 <= dt.month <= 12
    &&& 1 <= dt.day <= days_in_month(dt.year as int, dt.month as int)
    &&& dt.hour < 24
    &&& dt.minute < 60
    &&& dt.second < 60
}

/// The number of seconds from 1970-01-01T00:00:00Z to `dt`.
pub open spec fn epoch_seconds(dt: DateTime) -> nat {
    let days = days_before_year(dt.year as int) + days_before_month(dt.year as int, dt.month as int)
        + dt.day - 1;
    (days * 86400 + dt.hour * 3600 + dt.minute * 60 + dt.second) as nat
}

/// The ISO 8601 text of `dt`, as "YYYY-MM-DDTHH:MM:SSZ".
pub open spec fn iso8601(dt: DateTime) -> Seq<char> {
    zero_padded(dt.year, 4) + "-"@ + zero_padded(dt.month, 2) + "-"@ + zero_padded(dt.day, 2)
        + "T"@ + zero_padded(dt.hour, 2) + ":"@ + zero_padded(dt.minute, 2) + ":"@
        + zero_padded(dt.second, 2) + "Z"@
}

/// `text` is the ISO 8601 timestamp of the instant `secs` seconds after the Unix epoch.
pub open spec fn is_timestamp_of(text: Seq<char>, secs: nat) -> bool {
    exists|dt: DateTime|
        is_valid_datetime(dt) && epoch_seconds(dt) == secs && text == #[trigger] iso8601(dt)
}

/// The months of a year add up to the year.
proof fn lemma_months_fill_year(year: int)
    ensures
        days_before_month(year, 13) == days_in_year(year),
{
    reveal_with_fuel(days_before_month, 13);
}

/// Days before a month grow with the month.
proof fn lemma_days_before_month_grows(year: int, m1: int, m2: int)
    requires
        m1 <= m2,
    ensures
        days_before_month(year, m1) <= days_before_month(year, m2),
    decreases m2 - m1,
{
    if m1 < m2 {
        lemma_days_before_month_grows(year, m1, m2 - 1);
    }
}

/// The time of day within a day of seconds splits into hours, minutes and seconds.
proof fn lemma_time_of_day(secs: int)
    requires
        secs >= 0,
    ensures
        (secs % 86400) / 3600 < 24,
        (secs % 3600) / 60 < 60,
        secs % 60 < 60,
        secs == (secs / 86400) * 86400 + ((secs % 86400) / 3600) * 3600 + ((secs % 3600) / 60)
            * 60 + secs % 60,
{
    let r = secs % 86400;
    lemma_fundamental_div_mod(secs, 86400);
    lemma_mod_mod(secs, 3600, 24);
    lemma_mod_mod(secs, 60, 60);
    lemma_fundamental_div_mod(r, 3600);
    lemma_fundamental_div_mod(secs % 3600, 60);
    assert(0 <= r < 86400);
    assert(r / 3600 < 24) by (nonlinear_arith)
        requires
            0 <= r < 86400,
    ;
    assert((secs % 3600) / 60 < 60) by (nonlinear_arith)
        requires
            0 <= secs % 3600 < 3600,
    ;
}

/// Days before a year grow with the year.
proof fn lemma_days_before_year_grows(y1: int, y2: int)
    requires
        y1 <= y2,
    ensures
        days_before_year(y1) <= days_before_year(y2),
    decreases y2 - y1,
{
    if y1 < y2 {
        lemma_days_before_year_grows(y1, y2 - 1);
    }
}

/// The day count of a valid date lies within its year, and within its month.
proof fn lemma_day_within_year(dt: DateTime)
    requires
        is_valid_datetime(dt),
    ensures
        days_before_month(dt.year as int, dt.month as int) + dt.day - 1 < days_before_month(
            dt.year as int,
            (dt.month + 1) as int,
        ),
        days_before_month(dt.year as int, (dt.month + 1) as int) <= days_in_year(dt.year as int),
        days_before_year(dt.year as int) + days_before_month(dt.year as int, dt.month as int)
            + dt.day - 1 < days_before_year(dt.year + 1int),
{
    lemma_months_fill_year(dt.year as int);
    lemma_days_before_month_grows(dt.year as int, (dt.month + 1) as int, 13);
}

/// The seconds of a time of day fit in a day.
proof fn lemma_time_fits_day(h: nat, m: nat, s: nat)
    requires
        h < 24,
        m < 60,
        s < 60,
    ensures
        h * 3600 + m * 60 + s < 86400,
        m * 60 + s < 3600,
{
    assert(h * 3600 <= 82800) by (nonlinear_arith)
        requires
            h < 24,
    ;
    assert(m * 60 <= 3540) by (nonlinear_arith)
        requires
            m < 60,
    ;
}

/// Two valid dates and times at the same number of seconds since the epoch
/// are the same: a timestamp names exactly one instant.
pub proof fn lemma_datetime_unique(a: DateTime, b: DateTime)
    requires
        is_valid_datetime(a),
        is_valid_datetime(b),
        epoch_seconds(a) == epoch_seconds(b),
    ensures
        a == b,
{
    let e = epoch_seconds(a) as int;
    let da = days_before_year(a.year as int) + days_before_month(a.year as int, a.month as int)
        + a.day - 1;
    let db = days_before_year(b.year as int) + days_before_month(b.year as int, b.month as int)
        + b.day - 1;
    let ta = a.hour * 3600 + a.minute * 60 + a.second;
    let tb = b.hour * 3600 + b.minute * 60 + b.second;
    lemma_time_fits_day(a.hour, a.minute, a.second);
    lemma_time_fits_day(b.hour, b.minute, b.second);
    assert(e == da * 86400 + ta);
    assert(e == db * 86400 + tb);
    lemma_fundamental_div_mod_converse_div(e, 86400, da, ta as int);
    lemma_fundamental_div_mod_converse_div(e, 86400, db, tb as int);
    lemma_fundamental_div_mod_converse_mod(e, 86400, da, ta as int);
    lemma_fundamental_div_mod_converse_mod(e, 86400, db, tb as int);
    assert(da == db);
    assert(ta == tb);
    let ra = a.minute * 60 + a.second;
    let rb = b.minute * 60 + b.second;
    lemma_fundamental_div_mod_converse_div(ta as int, 3600, a.hour as int, ra as int);
    lemma_fundamental_div_mod_converse_div(tb as int, 3600, b.hour as int, rb as int);
    lemma_fundamental_div_mod_converse_mod(ta as int, 3600, a.hour as int, ra as int);
    lemma_fundamental_div_mod_converse_mod(tb as int, 3600, b.hour as int, rb as int);
    lemma_fundamental_div_mod_converse_div(ra as int, 60, a.minute as int, a.second as int);
    lemma_fundamental_div_mod_converse_div(rb as int, 60, b.minute as int, b.second as int);
    lemma_fundamental_div_mod_converse_mod(ra as int, 60, a.minute as int, a.second as int);
    lemma_fundamental_div_mod_converse_mod(rb as int, 60, b.minute as int, b.second as int);
    lemma_day_within_year(a);
    lemma_day_within_year(b);
    if a.year < b.year {
        lemma_days_before_year_grows(a.year + 1int, b.year as int);
    } else if b.year < a.year {
        lemma_days_before_year_grows(b.year + 1int, a.year as int);
    }
    assert(a.year == b.year);
    let y = a.year as int;
    if a.month < b.month {
        lemma_days_before_month_grows(y, a.month + 1int, b.month as int);
    } else if b.month < a.month {
        lemma_days_before_month_grows(y, b.month + 1int, a.month as int);
    }
    assert(a.month == b.month);
}

/// `a` comes before `b` in calendar order: by year, then month, day, hour,
/// minute and second.
pub open spec fn datetime_before(a: DateTime, b: DateTime) -> bool {
    ||| a.year < b.year
    ||| a.year == b.year && a.month < b.month
    ||| a.year == b.year && a.month == b.month && a.day < b.day
    ||| a.year == b.year && a.month == b.month && a.day == b.day && a.hour < b.hour
    ||| a.year == b.year && a.month == b.month && a.day == b.day && a.hour == b.hour && a.minute
        < b.minute
    ||| a.year == b.year && a.month == b.month && a.day == b.day && a.hour == b.hour && a.minute
        == b.minute && a.second < b.second
}

/// A valid date and time that comes first in calendar order is fewer seconds
/// after the epoch.
proof fn lemma_epoch_monotone(a: DateTime, b: DateTime)
    requires
        is_valid_datetime(a),
        is_valid_datetime(b),
        datetime_before(a, b),
    ensures
        epoch_seconds(a) < epoch_seconds(b),
{
    let da = days_before_year(a.year as int) + days_before_month(a.year as int, a.month as int)
        + a.day - 1;
    let db = days_before_year(b.year as int) + days_before_month(b.year as int, b.month as int)
        + b.day - 1;
    let ta = a.hour * 3600 + a.minute * 60 + a.second;
    let tb = b.hour * 3600 + b.minute * 60 + b.second;
    lemma_time_fits_day(a.hour, a.minute, a.second);
    lemma_time_fits_day(b.hour, b.minute, b.second);
    lemma_day_within_year(a);
    lemma_day_within_year(b);
    assert(epoch_seconds(a) == da * 86400 + ta);
    assert(epoch_seconds(b) == db * 86400 + tb);
    if a.year < b.year {
        lemma_days_before_year_grows(a.year + 1int, b.year as int);
        assert(da < db);
    } else if a.year == b.year && a.month < b.month {
        lemma_days_before_month_grows(a.year as int, a.month + 1int, b.month as int);
        assert(da < db);
    }
    if da < db {
        assert(da * 86400 + 86400 <= db * 86400);
    } else {
        assert(da == db);
        assert(ta < tb);
    }
}

/// The `i`-th of the twelve pieces of the ISO 8601 text of `dt`: the six
/// zero-padded fields, each followed by its separator.
spec fn iso_piece(dt: DateTime, i: int) -> Seq<char> {
    if i == 0 {
        zero_padded(dt.year, 4)
    } else if i == 1 {
        "-"@
    } else if i == 2 {
        zero_padded(dt.month, 2)
    } else if i == 3 {
        "-"@
    } else if i == 4 {
        zero_padded(dt.day, 2)
    } else if i == 5 {
        "T"@
    } else if i == 6 {
        zero_padded(dt.hour, 2)
    } else if i == 7 {
        ":"@
    } else if i == 8 {
        zero_padded(dt.minute, 2)
    } else if i == 9 {
        ":"@
    } else if i == 10 {
        zero_padded(dt.second, 2)
    } else {
        "Z"@
    }
}

/// The first `n` pieces of the ISO 8601 text of `dt`, joined.
spec fn iso_prefix(dt: DateTime, n: nat) -> Seq<char>
    decreases n,
{
    if n == 0 {
        Seq::empty()
    } else {
        iso_prefix(dt, (n - 1) as nat) + iso_piece(dt, n - 1)
    }
}

/// The twelve pieces make up the whole text.
proof fn lemma_iso_pieces(dt: DateTime)
    ensures
        iso8601(dt) == iso_prefix(dt, 12),
{
    reveal_with_fuel(iso_prefix, 13);
    assert(Seq::<char>::empty() + zero_padded(dt.year, 4) =~= zero_padded(dt.year, 4));
}

/// Equal pieces make equal prefixes.
proof fn lemma_iso_prefix_equal(a: DateTime, b: DateTime, n: nat)
    requires
        forall|i: int| 0 <= i < n ==> #[trigger] iso_piece(a, i) == iso_piece(b, i),
    ensures
        iso_prefix(a, n) == iso_prefix(b, n),
    decreases n,
{
    if n > 0 {
        lemma_iso_prefix_equal(a, b, (n - 1) as nat);
    }
}

/// Once two prefixes of one length are in order, longer prefixes stay in
/// order, as long as the pieces have equal lengths.
proof fn lemma_iso_prefix_extend(a: DateTime, b: DateTime, j: nat, n: nat)
    requires
        j <= n,
        forall|i: int| 0 <= i < 12 ==> #[trigger] iso_piece(a, i).len() == iso_piece(b, i).len(),
        iso_prefix(a, j).len() == iso_prefix(b, j).len(),
        lex_less(iso_prefix(a, j), iso_prefix(b, j)),
    ensures
        iso_prefix(a, n).len() == iso_prefix(b, n).len(),
        lex_less(iso_prefix(a, n), iso_prefix(b, n)),
    decreases n - j,
{
    if j < n {
        lemma_iso_prefix_extend(a, b, j, (n - 1) as nat);
        if n - 1 < 12 {
            assert(iso_piece(a, n - 1).len() == iso_piece(b, n - 1).len());
        }
        lemma_lex_append(
            iso_prefix(a, (n - 1) as nat),
            iso_prefix(b, (n - 1) as nat),
            iso_piece(a, n - 1),
            iso_piece(b, n - 1),
        );
    }
}

/// Prefixes of pieces of equal lengths have equal lengths.
proof fn lemma_iso_prefix_len(a: DateTime, b: DateTime, n: nat)
    requires
        n <= 12,
        forall|i: int| 0 <= i < 12 ==> #[trigger] iso_piece(a, i).len() == iso_piece(b, i).len(),
    ensures
        iso_prefix(a, n).len() == iso_prefix(b, n).len(),
    decreases n,
{
    if n > 0 {
        lemma_iso_prefix_len(a, b, (n - 1) as nat);
        assert(iso_piece(a, n - 1).len() == iso_piece(b, n - 1).len());
    }
}

/// The ISO 8601 texts of two valid dates and times before the year 10000
/// compare in byte order as the dates and times do in calendar order.
proof fn lemma_iso_order(a: DateTime, b: DateTime)
    requires
        is_valid_datetime(a),
        is_valid_datetime(b),
        a.year < 10000,
        b.year < 10000,
        datetime_before(a, b),
    ensures
        lex_less(iso8601(a), iso8601(b)),
{
    reveal_with_fuel(pow10, 5);
    assert(pow10(4) == 10000 && pow10(2) == 100);
    assert(a.day <= 31 && b.day <= 31);
    lemma_zero_padded_order(a.year, a.year, 4);
    lemma_zero_padded_order(b.year, b.year, 4);
    lemma_zero_padded_order(a.month, a.month, 2);
    lemma_zero_padded_order(b.month, b.month, 2);
    lemma_zero_padded_order(a.day, a.day, 2);
    lemma_zero_padded_order(b.day, b.day, 2);
    lemma_zero_padded_order(a.hour, a.hour, 2);
    lemma_zero_padded_order(b.hour, b.hour, 2);
    lemma_zero_padded_order(a.minute, a.minute, 2);
    lemma_zero_padded_order(b.minute, b.minute, 2);
    lemma_zero_padded_order(a.second, a.second, 2);
    lemma_zero_padded_order(b.second, b.second, 2);
    assert forall|i: int| 0 <= i < 12 implies #[trigger] iso_piece(a, i).len() == iso_piece(
        b,
        i,
    ).len() by {}
    // The first field in which the two differ, as a piece index.
    let k: int = if a.year < b.year {
        0
    } else if a.month < b.month {
        2
    } else if a.day < b.day {
        4
    } else if a.hour < b.hour {
        6
    } else if a.minute < b.minute {
        8
    } else {
        10
    };
    assert forall|i: int| 0 <= i < k implies #[trigger] iso_piece(a, i) == iso_piece(b, i) by {}
    lemma_iso_prefix_equal(a, b, k as nat);
    if k == 0 {
        lemma_zero_padded_order(a.year, b.year, 4);
    } else if k == 2 {
        lemma_zero_padded_order(a.month, b.month, 2);
    } else if k == 4 {
        lemma_zero_padded_order(a.day, b.day, 2);
    } else if k == 6 {
        lemma_zero_padded_order(a.hour, b.hour, 2);
    } else if k == 8 {
        lemma_zero_padded_order(a.minute, b.minute, 2);
    } else {
        lemma_zero_padded_order(a.second, b.second, 2);
    }
    assert(lex_less(iso_piece(a, k), iso_piece(b, k)));
    lemma_lex_prefix(iso_prefix(a, k as nat), iso_piece(a, k), iso_piece(b, k));
    lemma_iso_prefix_len(a, b, (k + 1) as nat);
    lemma_iso_prefix_extend(a, b, (k + 1) as nat, 12);
    lemma_iso_pieces(a);
    lemma_iso_pieces(b);
}

/// The number of leap years from year 1 to year `x`.
spec fn leap_years_through(x: int) -> int {
    x / 4 - x / 100 + x / 400
}

/// Counting the multiples of `d` up to `x` adds one exactly at a multiple.
proof fn lemma_div_step(x: int, d: int)
    requires
        x >= 1,
        d > 0,
    ensures
        x / d - (x - 1) / d == (if x % d == 0 {
            1int
        } else {
            0int
        }),
{
    lemma_fundamental_div_mod(x, d);
    lemma_mod_pos_bound(x, d);
    let q = x / d;
    let r = x % d;
    assert(d * q == q * d) by (nonlinear_arith);
    if r == 0 {
        assert((q - 1) * d == q * d - d) by (nonlinear_arith);
        lemma_fundamental_div_mod_converse_div(x - 1, d, q - 1, d - 1);
    } else {
        lemma_fundamental_div_mod_converse_div(x - 1, d, q, r - 1);
    }
}

/// The leap-year count grows by one exactly at a leap year.
proof fn lemma_leap_step(y: int)
    requires
        y >= 1,
    ensures
        leap_years_through(y) - leap_years_through(y - 1) == (if is_leap(y) {
            1int
        } else {
            0int
        }),
{
    lemma_div_step(y, 4);
    lemma_div_step(y, 100);
    lemma_div_step(y, 400);
    if y % 400 == 0 {
        lemma_fundamental_div_mod(y, 400);
        lemma_fundamental_div_mod_converse_mod(y, 100, 4 * (y / 400), 0);
    }
    if y % 100 == 0 {
        lemma_fundamental_div_mod(y, 100);
        lemma_fundamental_div_mod_converse_mod(y, 4, 25 * (y / 100), 0);
    }
}

/// The days before a year, in closed form.
proof fn lemma_days_before_year_closed(y: int)
    requires
        y >= 1970,
    ensures
        days_before_year(y) == 365 * (y - 1970) + leap_years_through(y - 1) - leap_years_through(
            1969,
        ),
    decreases y - 1970,
{
    if y > 1970 {
        lemma_days_before_year_closed(y - 1);
        lemma_leap_step(y - 1);
    }
}

/// A valid date and time less than 253402300800 seconds after the epoch
/// (10000-01-01T00:00:00Z) lies before the year 10000.
proof fn lemma_before_year_10000(dt: DateTime)
    requires
        is_valid_datetime(dt),
        epoch_seconds(dt) < 253402300800,
    ensures
        dt.year < 10000,
{
    lemma_days_before_year_closed(10000);
    assert(days_before_year(10000) == 2932897);
    if dt.year >= 10000 {
        lemma_days_before_year_grows(10000, dt.year as int);
        assert(epoch_seconds(dt) >= days_before_year(dt.year as int) * 86400);
    }
}

/// Gregorian leap year rule
fn is_leap_year(year: u64) -> (r: bool)
    ensures
        r == is_leap(year as int),
{
    (year % 4 == 0 && year % 100 != 0) || year % 400 == 0
}

/// The number of days of a month (1 to 12) of a year.
fn month_length(year: u64, month: u64) -> (r: u64)
    ensures
        r == days_in_month(year as int, month as int),
{
    if month == 2 {
        if is_leap_year(year) {
            29
        } else {
            28
        }
    } else if month == 4 || month == 6 || month == 9 || month == 11 {
        30
    } else {
        31
    }
}

/// Convert seconds since the Unix epoch to an ISO 8601 UTC timestamp.
pub fn format_timestamp(secs: u64) -> (text: String)
    ensures
        is_timestamp_of(text@, secs as nat),
{
    let total_days = secs / 86400;
    let mut days = total_days;
    // Walk forward from 1970, subtracting whole years (365 or 366 days)
    let mut year: u64 = 1970;
    loop
        invariant
            1970 <= year,
            days <= total_days,
            days_before_year(year as int) + days == total_days,
            year - 1970 <= days_before_year(year as int),
            total_days == secs / 86400,
        ensures
            days < days_in_year(year as int),
            1970 <= year,
            days_before_year(year as int) + days == total_days,
        decreases days,
    {
        let year_len: u64 = if is_leap_year(year) {
            366
        } else {
            365
        };
        if days < year_len {
            break;
        }
        days = days - year_len;
        year = year + 1;
    }
    // Then subtract whole months using real month lengths
    let ghost day_of_year = days as int;
    let mut month: u64 = 1;
    proof {
        lemma_months_fill_year(year as int);
    }
    while days >= month_length(year, month)
        invariant
            1 <= month <= 12,
            days_before_month(year as int, month as int) + days == day_of_year,
            day_of_year < days_before_month(year as int, 13),
        decreases days,
    {
        days = days - month_length(year, month);
        month = month + 1;
        proof {
            if month == 13 {
                assert(days_before_month(year as int, 13) + days == day_of_year);
            }
        }
    }
    let day = days + 1;
    let hours = (secs % 86400) / 3600;
    let minutes = (secs % 3600) / 60;
    let seconds = secs % 60;
    let ghost dt = DateTime {
        year: year as nat,
        month: month as nat,
        day: day as nat,
        hour: hours as nat,
        minute: minutes as nat,
        second: seconds as nat,
    };
    proof {
        lemma_time_of_day(secs as int);
        assert(is_valid_datetime(dt));
        assert(epoch_seconds(dt) == secs);
    }
    let mut text = String::new();
    push_padded(&mut text, year, 4);
    text.append("-");
    push_padded(&mut text, month, 2);
    text.append("-");
    push_padded(&mut text, day, 2);
    text.append("T");
    push_padded(&mut text, hours, 2);
    text.append(":");
    push_padded(&mut text, minutes, 2);
    text.append(":");
    push_padded(&mut text, seconds, 2);
    text.append("Z");
    assert(text@ =~= iso8601(dt));
    text
}

/// Declares `std::time::SystemTime`, the reading of the system clock.
#[verifier::external_type_specification]
#[verifier::external_body]
pub struct ExSystemTime(std::time::SystemTime);

/// The current time of the system clock.
/// Trusted: `std::time::SystemTime::now`; nothing is stated of the result,
/// which depends on the clock.
#[verifier::external_body]
fn system_time_now() -> std::time::SystemTime {
    std::time::SystemTime::now()
}

/// Declares `std::time::SystemTimeError`, the error of a clock reading before
/// the time it is measured from.
#[verifier::external_type_specification]
#[verifier::external_body]
pub struct ExSystemTimeError(std::time::SystemTimeError);

/// The time from the Unix epoch to `t`.
/// Trusted: `SystemTime::duration_since(UNIX_EPOCH)`, which std documents as
/// failing where `t` is earlier than the epoch; nothing is stated of the
/// result, which depends on the clock.
#[verifier::external_body]
fn duration_since_epoch(
    t: &std::time::SystemTime,
) -> Result<core::time::Duration, std::time::SystemTimeError> {
    t.duration_since(std::time::UNIX_EPOCH)
}

/// The whole seconds of a duration.
/// Trusted: `Duration::as_secs`; nothing is stated of the result, since the
/// duration itself is opaque here.
#[verifier::external_body]
fn whole_seconds(d: &core::time::Duration) -> u64 {
    d.as_secs()
}

/// Get a timestamp string for created_at: the ISO 8601 text of the current
/// time, in whole seconds.
pub fn timestamp_now() -> (text: String)
    ensures
        exists|secs: u64| is_timestamp_of(text@, secs as nat),
{
    let now = system_time_now();
    // A clock set before the epoch counts as the epoch itself.
    let secs = match duration_since_epoch(&now) {
        Ok(d) => whole_seconds(&d),
        Err(_) => 0,
    };
    format_timestamp(secs)
}

// ---------------------------------------------------------------------------
// Mappings and the store
// ---------------------------------------------------------------------------

/// A stored mapping from short code to original URL
#[derive(Debug, Clone)]
pub struct UrlMapping {
    /// The generated short code
    pub code: String,
    /// The original full URL
    pub original_url: String,
    /// Scan result at time of shortening
    pub scan_result: ScanResult,
    /// When this was created (ISO 8601 string)
    pub created_at: String,
}

/// The mathematical content of a `UrlMapping`.
pub struct UrlMappingView {
    pub code: Seq<char>,
    pub original_url: Seq<char>,
    pub scan_result: ScanResultView,
    pub created_at: Seq<char>,
}

impl View for UrlMapping {
    type V = UrlMappingView;

    open spec fn view(&self) -> UrlMappingView {
        UrlMappingView {
            code: self.code@,
            original_url: self.original_url@,
            scan_result: self.scan_result@,
            created_at: self.created_at@,
        }
    }
}

/// The views of a list of mappings.
pub open spec fn mapping_views(v: Seq<UrlMapping>) -> Seq<UrlMappingView> {
    v.map_values(|m: UrlMapping| m@)
}

/// Declares `std::io::Error`, carried by `StoreError::IoError`.
#[verifier::external_type_specification]
#[verifier::external_body]
pub struct ExIoError(std::io::Error);

/// Declares `serde_json::Error`, carried by `StoreError::JsonError`.
#[verifier::external_type_specification]
#[verifier::external_body]
pub struct ExJsonError(serde_json::Error);

/// Errors that can occur during storage operations
#[derive(Debug)]
pub enum StoreError {
    IoError(std::io::Error),
    JsonError(serde_json::Error),
    NotFound(String),
}

/// The text that an I/O error displays.
/// Trusted: the `Display` impl of `std::io::Error`; nothing is stated of
/// the text, which depends on the operating system's messages.
#[verifier::external_body]
fn io_error_text(e: &std::io::Error) -> String {
    format!("{}", e)
}

/// The text that a JSON error displays.
/// Trusted: the `Display` impl of `serde_json::Error`; nothing is stated of the text.
#[verifier::external_body]
fn json_error_text(e: &serde_json::Error) -> String {
    format!("{}", e)
}

impl StoreError {
    /// The human-readable form of the error.
    pub fn to_string(&self) -> (s: String)
        ensures
            match self {
                StoreError::IoError(_) => "Storage I/O error: "@.is_prefix_of(s@),
                StoreError::JsonError(_) => "Storage JSON error: "@.is_prefix_of(s@),
                StoreError::NotFound(code) => s@ == "Short code \""@ + code@ + "\" not found"@,
            },
    {
        match self {
            StoreError::IoError(e) => {
                let mut s = String::from_str("Storage I/O error: ");
                let detail = io_error_text(e);
                s.append(detail.as_str());
                s
            },
            StoreError::JsonError(e) => {
                let mut s = String::from_str("Storage JSON error: ");
                let detail = json_error_text(e);
                s.append(detail.as_str());
                s
            },
            StoreError::NotFound(code) => {
                let mut s = String::from_str("Short code \"");
                s.append(code.as_str());
                s.append("\" not found");
                s
            },
        }
    }
}

/// Whether the `i`-th mapping has the code `code`.
pub open spec fn code_at(entries: Seq<UrlMappingView>, code: Seq<char>) -> spec_fn(int) -> bool {
    |i: int| entries[i].code == code
}

/// The mapping that a code resolves to: the first one stored with it.
pub open spec fn lookup(entries: Seq<UrlMappingView>, code: Seq<char>) -> Option<UrlMappingView> {
    match first_index(entries.len(), code_at(entries, code)) {
        Some(i) => Some(entries[i]),
        None => None,
    }
}

/// Whether some mapping has the code `code`.
pub open spec fn code_in_use(entries: Seq<UrlMappingView>, code: Seq<char>) -> bool {
    exists|i: int| 0 <= i < entries.len() && #[trigger] entries[i].code == code
}

/// An exact copy of a scan result.
fn copy_scan_result(r: &ScanResult) -> (c: ScanResult)
    ensures
        c@ == r@,
{
    let mut flags: Vec<String> = Vec::new();
    let n = r.flags.len();
    for i in 0..n
        invariant
            n == r.flags@.len(),
            flags@.len() == i,
            forall|k: int| 0 <= k < i ==> #[trigger] flags@[k]@ == r.flags@[k]@,
    {
        flags.push(r.flags[i].clone());
    }
    let c = ScanResult { risk: r.risk, score: r.score, flags };
    assert(texts(c.flags@) =~= texts(r.flags@));
    c
}

/// An exact copy of a mapping.
fn copy_mapping(m: &UrlMapping) -> (c: UrlMapping)
    ensures
        c@ == m@,
{
    UrlMapping {
        code: m.code.clone(),
        original_url: m.original_url.clone(),
        scan_result: copy_scan_result(&m.scan_result),
        created_at: m.created_at.clone(),
    }
}

/// Whether some stored mapping already has the code `code`.
pub fn is_code_taken(entries: &Vec<UrlMapping>, code: &str) -> (r: bool)
    ensures
        r == code_in_use(mapping_views(entries@), code@),
{
    let target = String::from_str(code);
    let n = entries.len();
    for i in 0..n
        invariant
            n == entries@.len(),
            target@ == code@,
            forall|j: int| 0 <= j < i ==> entries@[j].code@ != code@,
    {
        if entries[i].code.eq(&target) {
            assert(mapping_views(entries@)[i as int].code == code@);
            return true;
        }
    }
    false
}

/// Save a new URL mapping to the store: it is appended after the existing ones.
pub fn save_mapping(entries: &mut Vec<UrlMapping>, mapping: &UrlMapping)
    ensures
        mapping_views(final(entries)@) == mapping_views(old(entries)@).push(mapping@),
{
    let c = copy_mapping(mapping);
    entries.push(c);
    assert(mapping_views(entries@) =~= mapping_views(old(entries)@).push(mapping@));
}

/// Look up a URL mapping by its short code: the first mapping stored with it.
pub fn resolve(entries: &Vec<UrlMapping>, code: &str) -> (r: Result<UrlMapping, StoreError>)
    ensures
        match r {
            Ok(m) => lookup(mapping_views(entries@), code@) == Some(m@),
            Err(StoreError::NotFound(c)) => lookup(mapping_views(entries@), code@) is None && c@
                == code@,
            Err(_) => false,
        },
{
    let target = String::from_str(code);
    let n = entries.len();
    let ghost views = mapping_views(entries@);
    let ghost pred = code_at(views, code@);
    for i in 0..n
        invariant
            n == entries@.len(),
            views == mapping_views(entries@),
            pred == code_at(views, code@),
            target@ == code@,
            forall|j: int| 0 <= j < i ==> !#[trigger] pred(j),
    {
        if entries[i].code.eq(&target) {
            proof {
                crate::text::lemma_first_index_some(n as nat, pred, i as int);
            }
            return Ok(copy_mapping(&entries[i]));
        }
    }
    proof {
        crate::text::lemma_first_index_none(n as nat, pred);
    }
    Err(StoreError::NotFound(target))
}

// ---------------------------------------------------------------------------
// Short codes
// ---------------------------------------------------------------------------

/// The characters of short codes: ASCII letters and digits.
pub open spec fn is_code_char(c: char) -> bool {
    ('a' <= c <= 'z') || ('A' <= c <= 'Z') || ('0' <= c <= '9')
}

/// The alphabet of short codes, in order: lowercase letters, uppercase letters, digits.
pub open spec fn code_alphabet(index: nat) -> char {
    if index < 26 {
        ((97 + index) as u8) as char
    } else if index < 52 {
        ((65 + index - 26) as u8) as char
    } else {
        ((48 + index - 52) as u8) as char
    }
}

/// The number of characters in the alphabet of short codes.
pub const CODE_ALPHABET_LEN: usize = 62;

/// The `index`-th character of the alphabet of short codes.
pub fn code_char(index: usize) -> (c: char)
    requires
        index < CODE_ALPHABET_LEN,
    ensures
        c == code_alphabet(index as nat),
        is_code_char(c),
{
    let i = index as u8;
    if i < 26 {
        (97 + i) as char
    } else if i < 52 {
        (65 + i - 26) as char
    } else {
        (48 + i - 52) as char
    }
}

/// Declares `rand::rngs::ThreadRng`, the generator that short codes are drawn from.
#[verifier::external_type_specification]
#[verifier::external_body]
pub struct ExThreadRng(rand::rngs::ThreadRng);

/// The thread-local random number generator.
/// Trusted: `rand::thread_rng`; nothing is stated of the generator. It
/// panics only where the operating system gives no entropy to seed it.
#[verifier::external_body]
fn thread_rng() -> rand::rngs::ThreadRng {
    rand::thread_rng()
}

/// A random index below `bound`.
/// Trusted: `rand::Rng::gen_range` on `0..bound`, documented to return a
/// value of the range and to panic where the range is empty.
#[verifier::external_body]
fn random_index(rng: &mut rand::rngs::ThreadRng, bound: usize) -> (i: usize)
    requires
        bound > 0,
    ensures
        i < bound,
{
    rng.gen_range(0..bound)
}

/// A text that can serve as a short code of `len` characters.
pub open spec fn is_code(code: Seq<char>, len: nat) -> bool {
    code.len() == len && forall|i: int| 0 <= i < code.len() ==> is_code_char(#[trigger] code[i])
}

/// Generate a random alphanumeric short code.
/// Uses a mix of lowercase, uppercase, and digits for URL-safe codes.
pub fn generate_code(len: usize) -> (code: String)
    ensures
        is_code(code@, len as nat),
{
    let mut rng = thread_rng();
    let mut code = String::new();
    for k in 0..len
        invariant
            is_code(code@, k as nat),
    {
        let idx = random_index(&mut rng, CODE_ALPHABET_LEN);
        let c = code_char(idx);
        crate::text::push_char(&mut code, c);
    }
    code
}

/// No stored code is a short code of `len` characters, so no drawn candidate can collide.
pub open spec fn no_code_of_length(entries: Seq<UrlMappingView>, len: nat) -> bool {
    forall|i: int| 0 <= i < entries.len() ==> !is_code(#[trigger] entries[i].code, len)
}

/// Generate a short code that doesn't collide with any code already in the store.
/// Without this check, a duplicate code would make the newer mapping unresolvable
/// (resolve returns the first match). Candidates are drawn until a free one
/// comes up; after `u64::MAX` collisions in a row the search gives up with `None`.
/// Where no stored code has the shape of a short code of `len` characters,
/// the first candidate is free and a code is always returned.
pub fn generate_unique_code(entries: &Vec<UrlMapping>, len: usize) -> (r: Option<String>)
    ensures
        match r {
            Some(code) => is_code(code@, len as nat) && !code_in_use(
                mapping_views(entries@),
                code@,
            ),
            None => true,
        },
        no_code_of_length(mapping_views(entries@), len as nat) ==> r is Some,
{
    let mut attempts: u64 = 0;
    while attempts < u64::MAX
        invariant
            no_code_of_length(mapping_views(entries@), len as nat) ==> attempts == 0,
        decreases u64::MAX - attempts,
    {
        let code = generate_code(len);
        if !is_code_taken(entries, code.as_str()) {
            return Some(code);
        }
        proof {
            if no_code_of_length(mapping_views(entries@), len as nat) {
                let views = mapping_views(entries@);
                let i = choose|i: int| 0 <= i < views.len() && #[trigger] views[i].code == code@;
                assert(!is_code(views[i].code, len as nat));
            }
        }
        attempts = attempts + 1;
    }
    None
}

/// The length of the short codes that shortening hands out.
pub const SHORT_CODE_LEN: usize = 6;

/// Shorten a scanned URL: draw a short code that no stored mapping has,
/// store the mapping from it to the URL (normalized, so that a URL without a
/// scheme gets "https://") with its scan result and creation
/// time, and return the code. `None`, with the store unchanged, only where no
/// free code came up (see `generate_unique_code`); never where no stored code
/// has the shape of a short code.
pub fn shorten_url(
    entries: &mut Vec<UrlMapping>,
    url: &str,
    scan_result: ScanResult,
    created_at: String,
) -> (r: Option<String>)
    ensures
        match r {
            Some(code) => {
                let m = UrlMappingView {
                    code: code@,
                    original_url: normalized(url@),
                    scan_result: scan_result@,
                    created_at: created_at@,
                };
                &&& is_code(code@, SHORT_CODE_LEN as nat)
                &&& !code_in_use(mapping_views(old(entries)@), code@)
                &&& mapping_views(final(entries)@) == mapping_views(old(entries)@).push(m)
                &&& lookup(mapping_views(final(entries)@), code@) == Some(m)
            },
            None => final(entries)@ == old(entries)@,
        },
        no_code_of_length(mapping_views(old(entries)@), SHORT_CODE_LEN as nat) ==> r is Some,
{
    let code = match generate_unique_code(entries, SHORT_CODE_LEN) {
        Some(c) => c,
        None => return None,
    };
    let mapping = UrlMapping {
        code: code.clone(),
        original_url: normalize_url(url),
        scan_result,
        created_at,
    };
    save_mapping(entries, &mapping);
    proof {
        lemma_resolve_after_save(mapping_views(old(entries)@), mapping@);
    }
    Some(code)
}

// ---------------------------------------------------------------------------
// Laws
// ---------------------------------------------------------------------------

/// A timestamp text names one instant: two texts of the same instant are equal.
pub proof fn lemma_timestamp_text_unique(t1: Seq<char>, t2: Seq<char>, secs: nat)
    requires
        is_timestamp_of(t1, secs),
        is_timestamp_of(t2, secs),
    ensures
        t1 == t2,
{
    let a = choose|dt: DateTime|
        is_valid_datetime(dt) && epoch_seconds(dt) == secs && t1 == #[trigger] iso8601(dt);
    let b = choose|dt: DateTime|
        is_valid_datetime(dt) && epoch_seconds(dt) == secs && t2 == #[trigger] iso8601(dt);
    lemma_datetime_unique(a, b);
}

/// Timestamps keep the order of instants: of two instants before the year
/// 10000 (253402300800 seconds after the epoch), the earlier one's ISO 8601
/// text comes first in byte order, so two distinct instants never share a text.
pub proof fn lemma_timestamp_order(secs_a: nat, secs_b: nat, text_a: Seq<char>, text_b: Seq<char>)
    requires
        secs_a < secs_b,
        secs_b < 253402300800,
        is_timestamp_of(text_a, secs_a),
        is_timestamp_of(text_b, secs_b),
    ensures
        lex_less(text_a, text_b),
        text_a != text_b,
{
    let a = choose|dt: DateTime|
        is_valid_datetime(dt) && epoch_seconds(dt) == secs_a && text_a == #[trigger] iso8601(dt);
    let b = choose|dt: DateTime|
        is_valid_datetime(dt) && epoch_seconds(dt) == secs_b && text_b == #[trigger] iso8601(dt);
    lemma_before_year_10000(a);
    lemma_before_year_10000(b);
    if datetime_before(b, a) {
        lemma_epoch_monotone(b, a);
    }
    assert(datetime_before(a, b));
    lemma_iso_order(a, b);
}

/// The alphabet of short codes is exactly the 62 ASCII letters and digits,
/// each at one index: every index gives a letter or digit, distinct indexes
/// give distinct characters, and every letter or digit has an index.
pub proof fn lemma_code_alphabet_is_alphanumeric(c: char)
    ensures
        is_code_char(c) <==> exists|i: nat| i < 62 && #[trigger] code_alphabet(i) == c,
        forall|i: nat, j: nat|
            i < 62 && j < 62 && i != j ==> #[trigger] code_alphabet(i) != #[trigger] code_alphabet(
                j,
            ),
{
    let x = c as u32;
    if 'a' <= c <= 'z' {
        let i = (x - 97) as nat;
        assert(code_alphabet(i) == c);
    } else if 'A' <= c <= 'Z' {
        let i = (x - 65 + 26) as nat;
        assert(code_alphabet(i) == c);
    } else if '0' <= c <= '9' {
        let i = (x - 48 + 52) as nat;
        assert(code_alphabet(i) == c);
    }
    assert forall|i: nat| i < 62 implies is_code_char(#[trigger] code_alphabet(i)) by {}
}

/// The timestamp of an instant before the year 10000 has the fixed ISO 8601
/// shape "YYYY-MM-DDTHH:MM:SSZ": twenty characters, with its separators in
/// place and a decimal digit everywhere else.
pub proof fn lemma_timestamp_shape(text: Seq<char>, secs: nat)
    requires
        secs < 253402300800,
        is_timestamp_of(text, secs),
    ensures
        text.len() == 20,
        text[4] == '-' && text[7] == '-' && text[10] == 'T',
        text[13] == ':' && text[16] == ':' && text[19] == 'Z',
        forall|k: int|
            0 <= k < 20 && k != 4 && k != 7 && k != 10 && k != 13 && k != 16 && k != 19 ==> '0'
                <= #[trigger] text[k] <= '9',
{
    let dt = choose|dt: DateTime|
        is_valid_datetime(dt) && epoch_seconds(dt) == secs && text == #[trigger] iso8601(dt);
    lemma_before_year_10000(dt);
    reveal_with_fuel(pow10, 5);
    assert(pow10(4) == 10000 && pow10(2) == 100);
    assert(dt.day <= 31);
    lemma_padded_digits(dt.year, 4);
    lemma_padded_digits(dt.month, 2);
    lemma_padded_digits(dt.day, 2);
    lemma_padded_digits(dt.hour, 2);
    lemma_padded_digits(dt.minute, 2);
    lemma_padded_digits(dt.second, 2);
    reveal_strlit("-");
    reveal_strlit("T");
    reveal_strlit(":");
    reveal_strlit("Z");
    let y = zero_padded(dt.year, 4);
    let mo = zero_padded(dt.month, 2);
    let d = zero_padded(dt.day, 2);
    let h = zero_padded(dt.hour, 2);
    let mi = zero_padded(dt.minute, 2);
    let s = zero_padded(dt.second, 2);
    assert(text =~= y + "-"@ + mo + "-"@ + d + "T"@ + h + ":"@ + mi + ":"@ + s + "Z"@);
    assert forall|k: int|
        0 <= k < 20 && k != 4 && k != 7 && k != 10 && k != 13 && k != 16 && k != 19 implies '0'
        <= #[trigger] text[k] <= '9' by {
        if k < 4 {
            assert(text[k] == y[k]);
        } else if k < 7 {
            assert(text[k] == mo[k - 5]);
        } else if k < 10 {
            assert(text[k] == d[k - 8]);
        } else if k < 13 {
            assert(text[k] == h[k - 11]);
        } else if k < 16 {
            assert(text[k] == mi[k - 14]);
        } else {
            assert(text[k] == s[k - 17]);
        }
    }
}

/// A zero-padded number below ten to the `w` is `w` decimal digits.
proof fn lemma_padded_digits(n: nat, w: nat)
    requires
        w >= 1,
        n < pow10(w),
    ensures
        zero_padded(n, w).len() == w,
        forall|k: int| 0 <= k < w ==> '0' <= #[trigger] zero_padded(n, w)[k] <= '9',
{
    crate::text::lemma_zero_padded_order(n, n, w);
    crate::text::lemma_zero_padded_fixed(n, w);
    lemma_fixed_digits_are_digits(n, w);
}

/// The last `w` digits of a number are decimal digits.
proof fn lemma_fixed_digits_are_digits(n: nat, w: nat)
    ensures
        forall|k: int|
            0 <= k < crate::text::fixed_digits(n, w).len() ==> '0' <= #[trigger] crate::text::fixed_digits(
                n,
                w,
            )[k] <= '9',
    decreases w,
{
    if w > 0 {
        lemma_fixed_digits_are_digits(n / 10, (w - 1) as nat);
        let c = crate::text::digit_char(n % 10);
        assert('0' <= c <= '9');
        let prev = crate::text::fixed_digits(n / 10, (w - 1) as nat);
        assert(crate::text::fixed_digits(n, w) == prev.push(c));
        assert forall|k: int| 0 <= k < prev.push(c).len() implies '0' <= #[trigger] prev.push(
            c,
        )[k] <= '9' by {
            if k < prev.len() {
                assert(prev.push(c)[k] == prev[k]);
            }
        }
    }
}

/// The calendar counts seconds as clocks do: 1970-01-01T00:00:00Z is the
/// epoch; a time of day adds its hours, minutes and seconds to the day's
/// midnight; and the next day, within a month, into the next month, or into
/// the next year, begins 86400 seconds after the day before it.
pub proof fn lemma_calendar_steps(dt: DateTime)
    requires
        is_valid_datetime(dt),
    ensures
        epoch_seconds(DateTime { year: 1970, month: 1, day: 1, hour: 0, minute: 0, second: 0 })
            == 0,
        epoch_seconds(dt) == epoch_seconds(DateTime { hour: 0, minute: 0, second: 0, ..dt })
            + dt.hour * 3600 + dt.minute * 60 + dt.second,
        dt.day < days_in_month(dt.year as int, dt.month as int) ==> epoch_seconds(
            DateTime { day: dt.day + 1, ..dt },
        ) == epoch_seconds(dt) + 86400,
        dt.day == days_in_month(dt.year as int, dt.month as int) && dt.month < 12 ==> epoch_seconds(
            DateTime { month: dt.month + 1, day: 1, ..dt },
        ) == epoch_seconds(dt) + 86400,
        dt.day == 31 && dt.month == 12 ==> epoch_seconds(
            DateTime { year: dt.year + 1, month: 1, day: 1, ..dt },
        ) == epoch_seconds(dt) + 86400,
{
    let y = dt.year as int;
    assert(days_before_month(y, dt.month + 1int) == days_before_month(y, dt.month as int)
        + days_in_month(y, dt.month as int));
    if dt.day == 31 && dt.month == 12 {
        lemma_months_fill_year(y);
        assert(days_before_month(y, 13) == days_before_month(y, 12) + 31);
        assert(days_before_year(y + 1) == days_before_year(y) + days_in_year(y));
        assert(days_before_month(y + 1, 1) == 0);
    }
}

/// A mapping saved under a code that no stored mapping has is what that code resolves to.
pub proof fn lemma_resolve_after_save(entries: Seq<UrlMappingView>, m: UrlMappingView)
    requires
        !code_in_use(entries, m.code),
    ensures
        lookup(entries.push(m), m.code) == Some(m),
{
    let all = entries.push(m);
    let pred = code_at(all, m.code);
    assert forall|j: int| 0 <= j < entries.len() implies !#[trigger] pred(j) by {
        assert(all[j] == entries[j]);
    }
    crate::text::lemma_first_index_some(all.len(), pred, entries.len() as int);
}

/// Saving a mapping leaves what every stored code resolves to unchanged.
pub proof fn lemma_save_keeps_resolutions(
    entries: Seq<UrlMappingView>,
    m: UrlMappingView,
    code: Seq<char>,
)
    requires
        lookup(entries, code) is Some,
    ensures
        lookup(entries.push(m), code) == lookup(entries, code),
{
    let all = entries.push(m);
    let pred = code_at(entries, code);
    let pred_all = code_at(all, code);
    crate::text::lemma_first_index_found(entries.len(), pred);
    let i = first_index(entries.len(), pred)->0;
    assert(all[i] == entries[i]);
    assert forall|j: int| 0 <= j < i implies !#[trigger] pred_all(j) by {
        assert(all[j] == entries[j]);
        assert(!pred(j));
    }
    crate::text::lemma_first_index_some(all.len(), pred_all, i);
}

/// A code resolves exactly when some stored mapping has it, and then to a
/// stored mapping with that code.
pub proof fn lemma_resolve_finds_stored(entries: Seq<UrlMappingView>, code: Seq<char>)
    ensures
        lookup(entries, code) is Some <==> code_in_use(entries, code),
        lookup(entries, code) matches Some(m) ==> m.code == code && entries.contains(m),
{
    let pred = code_at(entries, code);
    crate::text::lemma_first_index_none(entries.len(), pred);
    if lookup(entries, code) is Some {
        crate::text::lemma_first_index_found(entries.len(), pred);
        let i = first_index(entries.len(), pred)->0;
        assert(pred(i));
        assert(entries[i].code == code);
    }
    if code_in_use(entries, code) {
        let i = choose|i: int| 0 <= i < entries.len() && #[trigger] entries[i].code == code;
        assert(pred(i));
    }
}

} // verus!

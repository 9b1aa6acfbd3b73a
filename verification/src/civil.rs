//! The civil calendar: seconds since the Unix epoch to a UTC date and time
//! of day in the proleptic Gregorian calendar, and back.
//!
//! By the era arithmetic calendar libraries share: four-hundred-year eras
//! of 146 097 days, the year within the era, the day within a year that
//! starts on the first of March. How a moment is written as text is the
//! protocol's business; RFC 3339 is here.

use crate::text::{chars_of, decimal_chars, push_char, push_decimal};
use vstd::prelude::*;
use vstd::string::StringExecFns;

verus! {

broadcast use vstd::string::group_string_axioms;

/// Seconds in a civil day; a leap second is not one of them.
pub const SECONDS_A_DAY: i64 = 86_400;

/// Whether `year` is a leap year of the Gregorian calendar.
pub open spec fn is_leap(year: int) -> bool {
    year % 4 == 0 && (year % 100 != 0 || year % 400 == 0)
}

/// Days in `month` of `year`; no month is 0.
pub open spec fn month_length(year: int, month: int) -> int {
    if month == 1 || month == 3 || month == 5 || month == 7 || month == 8 || month == 10
        || month == 12 {
        31
    } else if month == 4 || month == 6 || month == 9 || month == 11 {
        30
    } else if month == 2 {
        if is_leap(year) {
            29
        } else {
            28
        }
    } else {
        0
    }
}

/// Whether `year`-`month`-`day` is a date of the calendar.
pub open spec fn valid_date(year: int, month: int, day: int) -> bool {
    1 <= month <= 12 && 1 <= day <= month_length(year, month)
}

/// The year a date belongs to when years begin on the first of March:
/// January and February count with the year before.
pub open spec fn shifted_year(year: int, month: int) -> int {
    if month <= 2 {
        year - 1
    } else {
        year
    }
}

/// Days from the first of March to the first of `month` in a year that
/// begins in March.
pub open spec fn march_offset(month: int) -> int {
    (153 * ((month + 9) % 12) + 2) / 5
}

/// Days from 0000-03-01 to the first of March of `year`: 365 a year, and
/// one more for each leap day between.
pub open spec fn days_before(year: int) -> int {
    365 * year + year / 4 - year / 100 + year / 400
}

/// Days from 1970-01-01 to `year`-`month`-`day`, negative before it.
pub open spec fn day_number(year: int, month: int, day: int) -> int {
    days_before(shifted_year(year, month)) + march_offset(month) + day - 1 - 719_468
}

/// Whether [`days_from_civil`]'s arithmetic on these fields stays within
/// `i64`: true of every year within about 2.5·10^16 of year 0.
pub open spec fn days_fit(year: i64, month: u32, day: u32) -> bool {
    let y = shifted_year(year as int, month as int);
    let era = y / 400;
    let of_era = 365 * (y % 400) + (y % 400) / 4 - (y % 400) / 100 + march_offset(month as int)
        + day - 1;
    &&& i64::MIN <= y
    &&& i64::MIN <= era * 146_097 - 719_468
    &&& era * 146_097 + of_era <= i64::MAX
}

/// Days before the `year_of_era`th year of an era, counted from March.
pub open spec fn era_year_days(year_of_era: int) -> int {
    365 * year_of_era + year_of_era / 4 - year_of_era / 100
}

proof fn lemma_era(year: int, era: int, year_of_era: int)
    requires
        year == 400 * era + year_of_era,
        0 <= year_of_era < 400,
    ensures
        days_before(year) == 146_097 * era + era_year_days(year_of_era),
{
}

/// Days from 1970-01-01 to the civil date `year`-`month`-`day`, negative
/// before it. The date is taken as given; [`CivilTime::new`] checks one.
pub fn days_from_civil(year: i64, month: u32, day: u32) -> (days: i64)
    requires
        days_fit(year, month, day),
    ensures
        days == day_number(year as int, month as int, day as int),
{
    let y = if month <= 2 {
        year - 1
    } else {
        year
    };
    let era = match y.checked_div_euclid(400) {
        Some(era) => era,
        None => 0,
    };
    let year_of_era = match y.checked_rem_euclid(400) {
        Some(rest) => rest as u64,
        None => 0,
    };
    let offset = ((153 * ((month as u64 + 9) % 12) + 2) / 5) as i64;
    let day_of_era = (year_of_era * 365 + year_of_era / 4 - year_of_era / 100) as i64 + offset
        + day as i64 - 1;
    proof {
        lemma_era(y as int, era as int, year_of_era as int);
    }
    era * 146_097 + day_of_era - 719_468
}

#[verifier::spinoff_prover]
#[verifier::rlimit(40)]
proof fn lemma_year_of_era(day_of_era: int)
    requires
        0 <= day_of_era < 146_097,
    ensures
        ({
            let doe = day_of_era;
            let year_of_era = (doe - doe / 1460 + doe / 36524 - doe / 146096) / 365;
            &&& 0 <= year_of_era < 400
            &&& era_year_days(year_of_era) <= doe
            &&& doe < era_year_days(year_of_era + 1) + (if year_of_era == 399 {
                1int
            } else {
                0
            })
        }),
{
}

/// Where in its March-based year a day falls: the month (0 for March) and
/// the day of that month.
proof fn lemma_month_of_year(day_of_year: int)
    requires
        0 <= day_of_year <= 365,
    ensures
        ({
            let shifted_month = (5 * day_of_year + 2) / 153;
            let day = day_of_year - (153 * shifted_month + 2) / 5 + 1;
            &&& 0 <= shifted_month <= 11
            &&& 1 <= day
            &&& shifted_month < 11 ==> day <= month_length(
                0,
                if shifted_month < 10 {
                    shifted_month + 3
                } else {
                    shifted_month - 9
                },
            )
            &&& shifted_month == 11 ==> day == day_of_year - 336
        }),
{
}

/// The length of the March-based year `year` is 366 exactly when the
/// February it holds, that of `year + 1`, has a leap day.
proof fn lemma_year_length(era: int, year_of_era: int)
    requires
        0 <= year_of_era < 400,
    ensures
        era_year_days(year_of_era + 1) + (if year_of_era == 399 { 1int } else { 0 })
            - era_year_days(year_of_era) == if is_leap(400 * era + year_of_era + 1) {
            366int
        } else {
            365int
        },
{
}

/// The civil date `days` after 1970-01-01: year, month 1 to 12, day 1 to 31.
pub fn civil_from_days(days: i64) -> (date: (i64, u32, u32))
    requires
        days <= i64::MAX - 719_468,
    ensures
        valid_date(date.0 as int, date.1 as int, date.2 as int),
        day_number(date.0 as int, date.1 as int, date.2 as int) == days,
{
    let shifted = days + 719_468;
    let era = match shifted.checked_div_euclid(146_097) {
        Some(era) => era,
        None => 0,
    };
    let day_of_era = match shifted.checked_rem_euclid(146_097) {
        Some(rest) => rest as u64,
        None => 0,
    };
    let year_of_era = (day_of_era - day_of_era / 1_460 + day_of_era / 36_524 - day_of_era
        / 146_096) / 365;
    proof {
        lemma_year_of_era(day_of_era as int);
        lemma_year_length(era as int, year_of_era as int);
    }
    let day_of_year = day_of_era - (365 * year_of_era + year_of_era / 4 - year_of_era / 100);
    proof {
        lemma_month_of_year(day_of_year as int);
    }
    let shifted_month = (5 * day_of_year + 2) / 153;
    let day = day_of_year - (153 * shifted_month + 2) / 5 + 1;
    let month = if shifted_month < 10 {
        shifted_month + 3
    } else {
        shifted_month - 9
    };
    let year = year_of_era as i64 + era * 400 + if month <= 2 {
        1
    } else {
        0
    };
    proof {
        lemma_era(year_of_era + 400 * era, era as int, year_of_era as int);
        assert(shifted_year(year as int, month as int) == 400 * era + year_of_era);
        assert((month + 9) % 12 == shifted_month);
    }
    (year, month as u32, day as u32)
}

/// Whether `n` divides `value`.
fn divides(value: i64, n: i64) -> (divides: bool)
    requires
        n > 0,
    ensures
        divides == (value % n == 0),
{
    match value.checked_rem_euclid(n) {
        Some(rest) => rest == 0,
        None => false,
    }
}

/// Days in `month` of `year`.
pub fn days_in_month(year: i64, month: u32) -> (days: u32)
    ensures
        days == month_length(year as int, month as int),
{
    match month {
        1 | 3 | 5 | 7 | 8 | 10 | 12 => 31,
        4 | 6 | 9 | 11 => 30,
        2 => if divides(year, 4) && (!divides(year, 100) || divides(year, 400)) {
            29
        } else {
            28
        },
        _ => 0,
    }
}

/// The day of the week `days` after 1970-01-01, a Thursday: 0 Monday to 6
/// Sunday.
pub fn weekday(days: i64) -> (day: u32)
    requires
        days <= i64::MAX - 3,
    ensures
        day == (days + 3) % 7,
{
    match (days + 3).checked_rem_euclid(7) {
        Some(rest) => rest as u32,
        None => 0,
    }
}

/// A moment in UTC, to the second.
#[derive(Clone, Copy, Debug, PartialEq, Eq, Structural, PartialOrd, Ord)]
pub struct CivilTime {
    /// The year; 0 is 1 BC.
    pub year: i64,
    /// 1 to 12.
    pub month: u32,
    /// 1 to the month's length.
    pub day: u32,
    /// 0 to 23.
    pub hour: u32,
    /// 0 to 59.
    pub minute: u32,
    /// 0 to 59, or 60 for a leap second.
    pub second: u32,
}

impl CivilTime {
    /// Whether every field is within its range.
    pub open spec fn is_moment(self) -> bool {
        &&& valid_date(self.year as int, self.month as int, self.day as int)
        &&& self.hour < 24
        &&& self.minute < 60
        &&& self.second <= 60
    }

    /// Seconds from the epoch to this moment; a leap second counts as the
    /// second after it.
    pub open spec fn seconds(self) -> int {
        day_number(self.year as int, self.month as int, self.day as int) * 86_400 + self.hour
            * 3_600 + self.minute * 60 + self.second
    }

    /// Whether [`CivilTime::unix`]'s arithmetic stays within `i64`.
    pub open spec fn unix_fits(self) -> bool {
        &&& days_fit(self.year, self.month, self.day)
        &&& i64::MIN <= day_number(self.year as int, self.month as int, self.day as int) * 86_400
        &&& self.seconds() <= i64::MAX
    }

    /// The moment these fields name, or `None` where one is out of its
    /// range: the thirtieth of February, the twenty-fourth hour.
    pub fn new(year: i64, month: u32, day: u32, hour: u32, minute: u32, second: u32) -> (moment:
        Option<Self>)
        ensures
            moment is Some <==> (CivilTime { year, month, day, hour, minute, second }).is_moment(),
            moment matches Some(t) ==> t == (CivilTime { year, month, day, hour, minute, second }),
    {
        let valid = 1 <= month && month <= 12 && day >= 1 && day <= days_in_month(year, month)
            && hour < 24 && minute < 60 && second <= 60;
        if valid {
            Some(CivilTime { year, month, day, hour, minute, second })
        } else {
            None
        }
    }

    /// The moment `seconds` after the epoch.
    pub fn from_unix(seconds: i64) -> (moment: Self)
        ensures
            moment.is_moment(),
            moment.second < 60,
            moment.seconds() == seconds,
    {
        let days = match seconds.checked_div_euclid(SECONDS_A_DAY) {
            Some(days) => days,
            None => 0,
        };
        let of_day = match seconds.checked_rem_euclid(SECONDS_A_DAY) {
            Some(rest) => rest as u64,
            None => 0,
        };
        let (year, month, day) = civil_from_days(days);
        CivilTime {
            year,
            month,
            day,
            hour: (of_day / 3_600) as u32,
            minute: (of_day % 3_600 / 60) as u32,
            second: (of_day % 60) as u32,
        }
    }

    /// Seconds since the epoch; a leap second is the second after it.
    pub fn unix(&self) -> (seconds: i64)
        requires
            self.unix_fits(),
        ensures
            seconds == self.seconds(),
    {
        let days = days_from_civil(self.year, self.month, self.day);
        days * SECONDS_A_DAY + self.hour as i64 * 3_600 + self.minute as i64 * 60
            + self.second as i64
    }

    /// The day of the week, 0 Monday to 6 Sunday, as ISO 8601 orders them.
    pub fn weekday(&self) -> (day: u32)
        requires
            days_fit(self.year, self.month, self.day),
            day_number(self.year as int, self.month as int, self.day as int) <= i64::MAX - 3,
        ensures
            day == (day_number(self.year as int, self.month as int, self.day as int) + 3) % 7,
    {
        weekday(days_from_civil(self.year, self.month, self.day))
    }
}

/// `n` zeros; none where `n` is not positive.
pub open spec fn zeros(n: int) -> Seq<char> {
    Seq::new(if n > 0 { n as nat } else { 0 }, |i: int| '0')
}

/// `value` in decimal, zero-padded on the left to `width` characters.
pub open spec fn padded(value: nat, width: int) -> Seq<char> {
    zeros(width - decimal_chars(value).len()) + decimal_chars(value)
}

/// `value` in decimal, zero-padded after its sign to `width` characters
/// in all.
pub open spec fn signed_padded(value: int, width: int) -> Seq<char> {
    if value < 0 {
        seq!['-'] + padded((-value) as nat, width - 1)
    } else {
        padded(value as nat, width)
    }
}

/// A moment as RFC 3339 writes it in UTC: `2026-09-10T12:00:00Z`.
pub open spec fn rfc3339_text(t: CivilTime) -> Seq<char> {
    signed_padded(t.year as int, 4) + seq!['-'] + padded(t.month as nat, 2) + seq!['-'] + padded(
        t.day as nat,
        2,
    ) + seq!['T'] + padded(t.hour as nat, 2) + seq![':'] + padded(t.minute as nat, 2) + seq![':']
        + padded(t.second as nat, 2) + seq!['Z']
}

/// `value` in decimal, zero-padded to `width`, appended to `out`.
fn push_padded(out: &mut String, value: u64, width: usize)
    ensures
        final(out)@ == old(out)@ + padded(value as nat, width as int),
{
    let mut digits = String::new();
    push_decimal(&mut digits, value);
    let count = chars_of(digits.as_str()).len();
    let mut k = count;
    while k < width
        invariant
            count == decimal_chars(value as nat).len(),
            count <= k,
            k <= width || k == count,
            out@ == old(out)@ + zeros(k - count),
        decreases width - k,
    {
        push_char(out, '0');
        proof {
            assert(zeros(k + 1 - count) =~= zeros(k - count).push('0'));
        }
        k += 1;
    }
    out.append(digits.as_str());
    proof {
        assert(k - count == width - count || width - count <= 0);
        assert(zeros(k - count) =~= zeros(width - count));
        assert(out@ =~= old(out)@ + padded(value as nat, width as int));
    }
}

impl CivilTime {
    /// RFC 3339 in UTC to the whole second: `2026-09-10T12:00:00Z`.
    pub fn rfc3339(&self) -> (text: String)
        ensures
            text@ == rfc3339_text(*self),
    {
        let mut out = String::new();
        if self.year < 0 {
            push_char(&mut out, '-');
            push_padded(&mut out, (-(self.year + 1)) as u64 + 1, 3);
        } else {
            push_padded(&mut out, self.year as u64, 4);
        }
        let ghost year = out@;
        push_char(&mut out, '-');
        push_padded(&mut out, self.month as u64, 2);
        push_char(&mut out, '-');
        push_padded(&mut out, self.day as u64, 2);
        push_char(&mut out, 'T');
        push_padded(&mut out, self.hour as u64, 2);
        push_char(&mut out, ':');
        push_padded(&mut out, self.minute as u64, 2);
        push_char(&mut out, ':');
        push_padded(&mut out, self.second as u64, 2);
        push_char(&mut out, 'Z');
        proof {
            assert(year =~= signed_padded(self.year as int, 4));
            assert(out@ =~= rfc3339_text(*self));
        }
        out
    }
}

#[verifier::external_type_specification]
#[verifier::external_body]
pub struct ExSystemTime(std::time::SystemTime);

/// The clock's reading now.
///
/// Trusted: calls `SystemTime::now`. Nothing is stated of the result: the
/// clock decides it.
#[verifier::external_body]
fn clock_now() -> std::time::SystemTime {
    std::time::SystemTime::now()
}

/// The time from the epoch to `at`, or `None` where `at` is before it.
///
/// Trusted: calls `SystemTime::duration_since` with `UNIX_EPOCH`, which
/// fails exactly for an earlier moment (std documentation). Nothing is
/// stated of the duration: a `SystemTime` is opaque here.
#[verifier::external_body]
fn since_epoch(at: std::time::SystemTime) -> Option<core::time::Duration> {
    match at.duration_since(std::time::UNIX_EPOCH) {
        Ok(since) => Some(since),
        Err(_) => None,
    }
}

/// The whole seconds of `span`.
///
/// Trusted: calls `Duration::as_secs`. Nothing is stated of the result: a
/// `Duration` is opaque here.
#[verifier::external_body]
fn whole_seconds(span: core::time::Duration) -> u64 {
    span.as_secs()
}

/// Seconds since the epoch as an `i64`, from the whole seconds the clock
/// counted: zero for a moment before the epoch, or for a count past
/// `i64::MAX`.
pub fn epoch_seconds(since: Option<u64>) -> (seconds: i64)
    ensures
        seconds == match since {
            Some(s) => if s <= i64::MAX {
                s as int
            } else {
                0
            },
            None => 0,
        },
{
    match since {
        Some(s) => if s <= i64::MAX as u64 {
            s as i64
        } else {
            0
        },
        None => 0,
    }
}

/// Whole seconds from the epoch to `at`, zero for a moment before it.
pub fn unix_seconds(at: std::time::SystemTime) -> (seconds: i64)
    ensures
        seconds >= 0,
{
    let since = match since_epoch(at) {
        Some(span) => Some(whole_seconds(span)),
        None => None,
    };
    epoch_seconds(since)
}

impl CivilTime {
    /// The moment `at`, to the whole second. A moment before the epoch,
    /// which no clock this runs under reports, is the epoch itself.
    pub fn from_system_time(at: std::time::SystemTime) -> (moment: Self)
        ensures
            moment.is_moment(),
            moment.second < 60,
            moment.seconds() >= 0,
    {
        CivilTime::from_unix(unix_seconds(at))
    }

    /// Now, to the whole second.
    pub fn now() -> (moment: Self)
        ensures
            moment.is_moment(),
            moment.second < 60,
            moment.seconds() >= 0,
    {
        CivilTime::from_system_time(clock_now())
    }
}

/// Whether the date `a` comes before the date `b`: by year, then month,
/// then day.
pub open spec fn date_before(a: (int, int, int), b: (int, int, int)) -> bool {
    a.0 < b.0 || (a.0 == b.0 && (a.1 < b.1 || (a.1 == b.1 && a.2 < b.2)))
}

/// The day number of a date, as a triple.
pub open spec fn date_number(date: (int, int, int)) -> int {
    day_number(date.0, date.1, date.2)
}

/// Whether a triple is a date of the calendar.
pub open spec fn is_date(date: (int, int, int)) -> bool {
    valid_date(date.0, date.1, date.2)
}

proof fn lemma_year_length_any(year: int)
    ensures
        days_before(year + 1) - days_before(year) == if is_leap(year + 1) {
            366int
        } else {
            365int
        },
{
}

proof fn lemma_years_ascend(earlier: int, later: int)
    requires
        earlier < later,
    ensures
        days_before(earlier + 1) <= days_before(later),
{
}

/// A date's day within its March-based year lies inside that year.
proof fn lemma_within_year(date: (int, int, int))
    requires
        is_date(date),
    ensures
        0 <= march_offset(date.1) + date.2 - 1,
        march_offset(date.1) + date.2 - 1 < days_before(shifted_year(date.0, date.1) + 1)
            - days_before(shifted_year(date.0, date.1)),
{
    lemma_year_length_any(shifted_year(date.0, date.1));
}

/// Within a year, an earlier month's days all come before a later month's.
proof fn lemma_months_ascend(year: int, a: int, day: int, b: int)
    requires
        1 <= a <= 12,
        1 <= b <= 12,
        1 <= day <= month_length(year, a),
        (a + 9) % 12 < (b + 9) % 12,
    ensures
        march_offset(a) + day - 1 < march_offset(b),
{
}

proof fn lemma_before_numbers_less(a: (int, int, int), b: (int, int, int))
    requires
        is_date(a),
        is_date(b),
        date_before(a, b),
    ensures
        date_number(a) < date_number(b),
{
    let ya = shifted_year(a.0, a.1);
    let yb = shifted_year(b.0, b.1);
    lemma_within_year(a);
    lemma_within_year(b);
    assert(12 * ya + (a.1 + 9) % 12 == 12 * a.0 + a.1 - 3);
    assert(12 * yb + (b.1 + 9) % 12 == 12 * b.0 + b.1 - 3);
    if ya < yb {
        lemma_years_ascend(ya, yb);
    } else if (a.1 + 9) % 12 < (b.1 + 9) % 12 {
        lemma_months_ascend(a.0, a.1, a.2, b.1);
    }
}

/// Day numbers order dates as the calendar does: of two dates, the earlier
/// has the smaller number, and two dates with one number are one date.
pub proof fn law_day_number_orders_dates(a: (int, int, int), b: (int, int, int))
    requires
        is_date(a),
        is_date(b),
    ensures
        date_number(a) < date_number(b) <==> date_before(a, b),
        date_number(a) == date_number(b) <==> a == b,
{
    if date_before(a, b) {
        lemma_before_numbers_less(a, b);
    } else if date_before(b, a) {
        lemma_before_numbers_less(b, a);
    }
}

/// Counting on by one day reaches the next date: of two dates whose day
/// numbers are one apart, the one with the greater number is the later.
pub proof fn law_next_day_comes_after(a: (int, int, int), b: (int, int, int))
    requires
        is_date(a),
        is_date(b),
        date_number(b) == date_number(a) + 1,
    ensures
        date_before(a, b),
{
    law_day_number_orders_dates(a, b);
}

proof fn lemma_split_seconds(da: int, ra: int, db: int, rb: int)
    requires
        0 <= ra < 86_400,
        0 <= rb < 86_400,
        da * 86_400 + ra == db * 86_400 + rb,
    ensures
        da == db,
        ra == rb,
{
}

proof fn lemma_split_day(ha: int, ma: int, sa: int, hb: int, mb: int, sb: int)
    requires
        0 <= ha < 24,
        0 <= hb < 24,
        0 <= ma < 60,
        0 <= mb < 60,
        0 <= sa < 60,
        0 <= sb < 60,
        ha * 3_600 + ma * 60 + sa == hb * 3_600 + mb * 60 + sb,
    ensures
        ha == hb,
        ma == mb,
        sa == sb,
{
}

/// A moment is pinned down by its seconds since the epoch: two moments
/// without a leap second that fall on the same second are one moment.
pub proof fn law_seconds_name_one_moment(a: CivilTime, b: CivilTime)
    requires
        a.is_moment(),
        b.is_moment(),
        a.second < 60,
        b.second < 60,
        a.seconds() == b.seconds(),
    ensures
        a == b,
{
    let da = date_number((a.year as int, a.month as int, a.day as int));
    let db = date_number((b.year as int, b.month as int, b.day as int));
    let ra = a.hour * 3_600 + a.minute * 60 + a.second;
    let rb = b.hour * 3_600 + b.minute * 60 + b.second;
    assert(a.seconds() == da * 86_400 + ra);
    assert(b.seconds() == db * 86_400 + rb);
    lemma_split_seconds(da, ra, db, rb);
    lemma_split_day(
        a.hour as int,
        a.minute as int,
        a.second as int,
        b.hour as int,
        b.minute as int,
        b.second as int,
    );
    law_day_number_orders_dates(
        (a.year as int, a.month as int, a.day as int),
        (b.year as int, b.month as int, b.day as int),
    );
}

proof fn lemma_days_in_range(days: int, rest: int)
    requires
        0 <= rest <= 86_400,
        i64::MIN + 86_400 <= days * 86_400 + rest <= i64::MAX,
    ensures
        -106_751_991_167_301 <= days <= 106_751_991_167_300,
        i64::MIN <= days * 86_400,
{
}

proof fn lemma_year_in_range(year: int, within: int)
    requires
        0 <= within < 366,
        -106_751_991_167_301 <= days_before(year) + within - 719_468 <= 106_751_991_167_300,
    ensures
        -300_000_000_000 <= year <= 300_000_000_000,
{
}

/// Every moment whose seconds since the epoch fit in an `i64`, a day's
/// seconds clear of its least value, can be turned back into them:
/// [`CivilTime::unix`] takes what [`CivilTime::from_unix`] gives there.
pub proof fn law_every_second_fits(t: CivilTime)
    requires
        t.is_moment(),
        i64::MIN + 86_400 <= t.seconds() <= i64::MAX,
    ensures
        t.unix_fits(),
{
    let date = (t.year as int, t.month as int, t.day as int);
    let days = date_number(date);
    let rest = t.hour * 3_600 + t.minute * 60 + t.second;
    assert(t.seconds() == days * 86_400 + rest);
    lemma_days_in_range(days, rest);
    let y = shifted_year(t.year as int, t.month as int);
    let within = march_offset(t.month as int) + t.day - 1;
    lemma_within_year(date);
    lemma_year_length_any(y);
    assert(days == days_before(y) + within - 719_468);
    lemma_year_in_range(y, within);
    lemma_era(y, y / 400, y % 400);
}

proof fn lemma_small_year_days(year: int, month: int, day: int)
    requires
        -1_000_000_000 <= year <= 1_000_000_000,
        1 <= month <= 12,
        1 <= day <= 31,
    ensures
        -400_000_000_000 <= day_number(year, month, day) <= 400_000_000_000,
{
    let y = shifted_year(year, month);
    lemma_era(y, y / 400, y % 400);
}

/// Every date within a billion years of year 0 is one both directions take:
/// `days_from_civil` counts its days, and `civil_from_days` takes that
/// count, giving back the one date it names (by
/// [`law_day_number_orders_dates`]).
pub proof fn law_dates_read_back(year: i64, month: u32, day: u32)
    requires
        valid_date(year as int, month as int, day as int),
        -1_000_000_000 <= year <= 1_000_000_000,
    ensures
        days_fit(year, month, day),
        i64::MIN <= day_number(year as int, month as int, day as int) <= i64::MAX - 719_468,
{
    let y = shifted_year(year as int, month as int);
    lemma_era(y, y / 400, y % 400);
    lemma_small_year_days(year as int, month as int, day as int);
}

/// Every moment within a billion years of year 0 has its seconds since the
/// epoch in an `i64`, a day clear of the least: `unix` takes it, and
/// `from_unix` gives it back unless it is a leap second (by
/// [`law_seconds_name_one_moment`]).
pub proof fn law_moments_fit(t: CivilTime)
    requires
        t.is_moment(),
        -1_000_000_000 <= t.year <= 1_000_000_000,
    ensures
        t.unix_fits(),
        i64::MIN + 86_400 <= t.seconds() <= i64::MAX,
{
    lemma_small_year_days(t.year as int, t.month as int, t.day as int);
    law_dates_read_back(t.year, t.month, t.day);
}

/// Whether the moment `a` comes at or before `b` field by field, year
/// first, as their derived order compares them.
pub open spec fn moment_not_after(a: CivilTime, b: CivilTime) -> bool {
    let da = (a.year as int, a.month as int, a.day as int);
    let db = (b.year as int, b.month as int, b.day as int);
    ||| date_before(da, db)
    ||| da == db && (a.hour, a.minute, a.second) == (b.hour, b.minute, b.second)
    ||| da == db && (a.hour < b.hour || (a.hour == b.hour && (a.minute < b.minute || (
        a.minute == b.minute && a.second <= b.second))))
}

/// Seconds since the epoch keep the order of moments, and a leap second is
/// the second after the one before it.
pub proof fn law_seconds_keep_order(a: CivilTime, b: CivilTime)
    requires
        a.is_moment(),
        b.is_moment(),
    ensures
        moment_not_after(a, b) ==> a.seconds() <= b.seconds(),
        a.second == 60 ==> a.seconds() == (CivilTime { second: 59, ..a }).seconds() + 1,
{
    let da = (a.year as int, a.month as int, a.day as int);
    let db = (b.year as int, b.month as int, b.day as int);
    law_day_number_orders_dates(da, db);
    let na = date_number(da);
    let nb = date_number(db);
    let ra = a.hour * 3_600 + a.minute * 60 + a.second;
    let rb = b.hour * 3_600 + b.minute * 60 + b.second;
    assert(a.seconds() == na * 86_400 + ra);
    assert(b.seconds() == nb * 86_400 + rb);
    assert(0 <= ra <= 86_400 && 0 <= rb <= 86_400);
    if date_before(da, db) {
        assert(na + 1 <= nb);
        assert(na * 86_400 + 86_400 <= nb * 86_400);
    }
}

} // verus!

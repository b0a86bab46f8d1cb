//! Folder naming and date helpers.
//!
//! Month directories are `MM-Month` (e.g. `06-June`): the numeric prefix makes them sort
//! chronologically. Export leaf directories are `YYYY-MM-DD-<slug>`.

use chrono::Datelike;
use vstd::prelude::*;
use crate::text::{
    all_digits, append_str, digit_char, lex_lt, ascii_lower, ascii_lower_char, char_len, decimal, digits_value,
    empty_string, find_char, first_index_of, is_ascii_alnum, is_ascii_alnum_char, is_ascii_digit,
    is_ascii_lower, lemma_zero_pad_value, lower_seq, parse_i32, parse_u32, push_char,
    spec_parse_int, to_owned_string, zero_pad, zero_padded,
};

verus! {

/// English month names, indexed by `month - 1`. Defined here (rather than relying on a
/// locale-dependent formatter) so the on-disk names are stable and predictable.
pub const MONTH_NAMES: [&'static str; 12] = [
    "January",
    "February",
    "March",
    "April",
    "May",
    "June",
    "July",
    "August",
    "September",
    "October",
    "November",
    "December",
];

/// Minimum width of the year directory name, e.g. `2026`.
pub const YEAR_FORMAT_WIDTH: usize = 4;

/// `strftime` pattern for export leaf-dir dates, e.g. `2026-06-15`.
pub const EXPORT_DATE_FORMAT: &'static str = "%Y-%m-%d";

/// Human description of the `--date` format accepted by `month`.
pub const YEAR_MONTH_FORMAT: &'static str = "YYYY-MM";

/// Human description of the `--date` format accepted by `export`.
pub const FULL_DATE_FORMAT: &'static str = "YYYY-MM-DD";

/// Why a month number or a date string was rejected.
#[derive(Debug)]
pub enum NamingError {
    /// The month is not in `1..=12`.
    InvalidMonth(u32),
    /// The text does not have the expected shape (`expected` describes it).
    InvalidDate { input: String, expected: &'static str },
}

/// Name of the year directory: the year in decimal, zero-padded to four characters
/// (a minus sign counts toward the width).
pub open spec fn spec_year_dir_name(year: int) -> Seq<char> {
    if year >= 0 {
        zero_pad(decimal(year as nat), 4)
    } else {
        seq!['-'] + zero_pad(decimal((-year) as nat), 3)
    }
}

/// The two-digit, zero-padded month number.
pub open spec fn month_number_text(month: int) -> Seq<char> {
    zero_pad(decimal(month as nat), 2)
}

/// English name of `month` (1-based).
pub open spec fn month_name(month: int) -> Seq<char> {
    MONTH_NAMES@[month - 1]@
}

/// `MM-Month`, e.g. `06-June`.
pub open spec fn spec_month_dir_name(month: int) -> Seq<char> {
    month_number_text(month) + seq!['-'] + month_name(month)
}

/// `2026` (zero-padded to at least four digits).
pub fn year_dir_name(year: i32) -> (name: String)
    ensures
        name@ == spec_year_dir_name(year as int),
{
    if year >= 0 {
        zero_padded(year as u64, YEAR_FORMAT_WIDTH)
    } else {
        let magnitude: u64 = (0i64 - (year as i64)) as u64;
        let digits = zero_padded(magnitude, YEAR_FORMAT_WIDTH - 1);
        let mut name = empty_string();
        push_char(&mut name, '-');
        append_str(&mut name, digits.as_str());
        name
    }
}

/// `6` -> `"06-June"`. Errors if `month` is not in `1..=12`.
pub fn month_dir_name(month: u32) -> (r: Result<String, NamingError>)
    ensures
        1 <= month <= 12 ==> (r matches Ok(name) && name@ == spec_month_dir_name(month as int)),
        !(1 <= month <= 12) ==> (r matches Err(NamingError::InvalidMonth(m)) && m == month),
{
    if !(1 <= month && month <= 12) {
        return Err(NamingError::InvalidMonth(month));
    }
    let name = MONTH_NAMES[(month - 1) as usize];
    let mut out = zero_padded(month as u64, 2);
    push_char(&mut out, '-');
    append_str(&mut out, name);
    Ok(out)
}

/// The `(year, month)` read from `s` by `parse_year_month` before the month-range check:
/// the text before the first `-` as an `i32` and the text after it as a `u32`. `None` when
/// there is no `-` or either part does not parse.
pub open spec fn year_month_parts(s: Seq<char>) -> Option<(int, int)> {
    match first_index_of(s, '-') {
        None => None,
        Some(i) => match (
            spec_parse_int(s.take(i), true, i32::MIN as int, i32::MAX as int),
            spec_parse_int(s.skip(i + 1), false, 0, u32::MAX as int),
        ) {
            (Some(y), Some(m)) => Some((y, m)),
            _ => None,
        },
    }
}

/// Parse `"YYYY-MM"` into `(year, month)`.
pub fn parse_year_month(s: &str) -> (r: Result<(i32, u32), NamingError>)
    ensures
        match year_month_parts(s@) {
            None => r matches Err(NamingError::InvalidDate { input, expected }) && input@ == s@
                && expected == YEAR_MONTH_FORMAT,
            Some((y, m)) => if 1 <= m <= 12 {
                r == Ok::<(i32, u32), NamingError>((y as i32, m as u32))
            } else {
                r matches Err(NamingError::InvalidMonth(bad)) && bad == m
            },
        },
{
    let dash = find_char(s, '-');
    let i = match dash {
        None => {
            return Err(NamingError::InvalidDate { input: to_owned_string(s), expected: YEAR_MONTH_FORMAT });
        },
        Some(i) => i,
    };
    let len = char_len(s);
    let year_text = s.substring_char(0, i);
    let month_text = s.substring_char(i + 1, len);
    assert(year_text@ =~= s@.take(i as int));
    assert(month_text@ =~= s@.skip(i + 1));
    let year = match parse_i32(year_text) {
        None => {
            return Err(NamingError::InvalidDate { input: to_owned_string(s), expected: YEAR_MONTH_FORMAT });
        },
        Some(y) => y,
    };
    let month = match parse_u32(month_text) {
        None => {
            return Err(NamingError::InvalidDate { input: to_owned_string(s), expected: YEAR_MONTH_FORMAT });
        },
        Some(m) => m,
    };
    if !(1 <= month && month <= 12) {
        return Err(NamingError::InvalidMonth(month));
    }
    Ok((year, month))
}

/// Gregorian leap year (proleptic, also for years before 1).
pub open spec fn is_leap_year(year: int) -> bool {
    year % 4 == 0 && (year % 100 != 0 || year % 400 == 0)
}

/// Number of days in `month` of `year`.
pub open spec fn days_in_month(year: int, month: int) -> int {
    if month == 2 {
        if is_leap_year(year) { 29 } else { 28 }
    } else if month == 4 || month == 6 || month == 9 || month == 11 {
        30
    } else {
        31
    }
}

/// Earliest year a calendar date can have.
pub open spec fn min_date_year() -> int {
    -262143
}

/// Latest year a calendar date can have.
pub open spec fn max_date_year() -> int {
    262142
}

/// A date of the proleptic Gregorian calendar within the supported year range.
pub open spec fn is_valid_date(year: int, month: int, day: int) -> bool {
    &&& min_date_year() <= year <= max_date_year()
    &&& 1 <= month <= 12
    &&& 1 <= day <= days_in_month(year, month)
}

/// A calendar date (proleptic Gregorian), always valid.
#[derive(Debug, Clone, Copy, PartialEq, Eq, Structural)]
pub struct Date {
    year: i32,
    month: u32,
    day: u32,
}

impl View for Date {
    type V = (int, int, int);

    closed spec fn view(&self) -> (int, int, int) {
        (self.year as int, self.month as int, self.day as int)
    }
}

impl Date {
    #[verifier::type_invariant]
    closed spec fn is_valid(self) -> bool {
        is_valid_date(self.year as int, self.month as int, self.day as int)
    }

    /// The date `year-month-day`, or `None` if there is no such calendar day.
    pub fn from_ymd_opt(year: i32, month: u32, day: u32) -> (r: Option<Date>)
        ensures
            r is Some <==> is_valid_date(year as int, month as int, day as int),
            r matches Some(d) ==> d@ == (year as int, month as int, day as int),
    {
        match checked_calendar_date(year, month, day) {
            Some((y, m, d)) => Some(Date { year: y, month: m, day: d }),
            None => None,
        }
    }

    /// The year; every `Date` is a valid calendar date.
    pub fn year(&self) -> (y: i32)
        ensures
            y as int == self@.0,
            is_valid_date(self@.0, self@.1, self@.2),
    {
        proof {
            use_type_invariant(self);
        }
        self.year
    }

    /// The month, `1..=12`.
    pub fn month(&self) -> (m: u32)
        ensures
            m as int == self@.1,
    {
        self.month
    }

    /// The day of the month.
    pub fn day(&self) -> (d: u32)
        ensures
            d as int == self@.2,
    {
        self.day
    }
}

/// Trusted: `chrono::NaiveDate::from_ymd_opt`, which documents that it returns `None` for an
/// out-of-range year, an invalid month or a day that the month does not have (the year
/// range in the version used is `-262143..=262142`), and otherwise the date itself.
#[verifier::external_body]
fn checked_calendar_date(year: i32, month: u32, day: u32) -> (r: Option<(i32, u32, u32)>)
    ensures
        r is Some <==> is_valid_date(year as int, month as int, day as int),
        r matches Some(t) ==> t == (year, month, day),
{
    chrono::NaiveDate::from_ymd_opt(year, month, day).map(|d| (d.year(), d.month(), d.day()))
}

/// What `chrono::NaiveDate::parse_from_str(text, format)` yields, as `(year, month, day)`.
pub uninterp spec fn chrono_parsed_date(text: Seq<char>, format: Seq<char>) -> Option<(int, int, int)>;

/// Trusted: `chrono::NaiveDate::parse_from_str`. Its result depends only on the text and the
/// format, and a parsed value is a `NaiveDate`, hence a valid calendar date. The parsing
/// rules themselves are left to chrono and named here rather than restated.
#[verifier::external_body]
fn parse_calendar_date(text: &str, format: &str) -> (r: Option<(i32, u32, u32)>)
    ensures
        match r {
            Some(t) => chrono_parsed_date(text@, format@) == Some((t.0 as int, t.1 as int, t.2 as int))
                && is_valid_date(t.0 as int, t.1 as int, t.2 as int),
            None => chrono_parsed_date(text@, format@) is None,
        },
{
    chrono::NaiveDate::parse_from_str(text, format).ok().map(|d| (d.year(), d.month(), d.day()))
}

/// The result of parsing `input` as a full date, given what the date parser returned.
pub fn date_from_parse(input: &str, parsed: Option<Date>) -> (r: Result<Date, NamingError>)
    ensures
        match parsed {
            Some(d) => r == Ok::<Date, NamingError>(d),
            None => r matches Err(NamingError::InvalidDate { input: i, expected }) && i@ == input@
                && expected == FULL_DATE_FORMAT,
        },
{
    match parsed {
        Some(d) => Ok(d),
        None => Err(NamingError::InvalidDate { input: to_owned_string(input), expected: FULL_DATE_FORMAT }),
    }
}

/// Parse `"YYYY-MM-DD"` (chrono's `%Y-%m-%d`) into a [`Date`].
pub fn parse_date(s: &str) -> (r: Result<Date, NamingError>)
    ensures
        match chrono_parsed_date(s@, EXPORT_DATE_FORMAT@) {
            Some(t) => r matches Ok(d) && d@ == t,
            None => r matches Err(NamingError::InvalidDate { input, expected }) && input@ == s@
                && expected == FULL_DATE_FORMAT,
        },
{
    let parsed = match parse_calendar_date(s, EXPORT_DATE_FORMAT) {
        Some((y, m, d)) => Some(Date { year: y, month: m, day: d }),
        None => None,
    };
    date_from_parse(s, parsed)
}

/// chrono's `%Y`: four zero-padded digits for years `0..=9999`, otherwise an explicit sign
/// followed by at least four digits.
pub open spec fn year_text(year: int) -> Seq<char> {
    if 0 <= year <= 9999 {
        zero_pad(decimal(year as nat), 4)
    } else if year < 0 {
        seq!['-'] + zero_pad(decimal((-year) as nat), 4)
    } else {
        seq!['+'] + zero_pad(decimal(year as nat), 4)
    }
}

/// `%Y-%m-%d`, e.g. `2026-06-15`.
pub open spec fn date_text(year: int, month: int, day: int) -> Seq<char> {
    year_text(year) + seq!['-'] + zero_pad(decimal(month as nat), 2) + seq!['-'] + zero_pad(
        decimal(day as nat),
        2,
    )
}

/// Trusted: `chrono::NaiveDate::format` with `%Y-%m-%d`. chrono documents `%Y` as the year
/// zero-padded to four digits (years outside `0..=9999` carry an explicit sign) and `%m`,
/// `%d` as the month and day zero-padded to two digits.
#[verifier::external_body]
fn format_calendar_date(year: i32, month: u32, day: u32, format: &str) -> (text: String)
    requires
        is_valid_date(year as int, month as int, day as int),
        format@ == EXPORT_DATE_FORMAT@,
    ensures
        text@ == date_text(year as int, month as int, day as int),
{
    chrono::NaiveDate::from_ymd_opt(year, month, day).unwrap().format(format).to_string()
}

/// `2026-06-15` + `charlie-bean` -> `"2026-06-15-charlie-bean"`.
pub fn export_leaf_name(date: &Date, slug: &str) -> (name: String)
    ensures
        name@ == date_text(date@.0, date@.1, date@.2) + seq!['-'] + slug@,
{
    proof {
        use_type_invariant(date);
    }
    let mut name = format_calendar_date(date.year, date.month, date.day, EXPORT_DATE_FORMAT);
    push_char(&mut name, '-');
    append_str(&mut name, slug);
    name
}

/// Declares `std::time::SystemTime` so that a clock reading can be carried.
#[verifier::external_type_specification]
#[verifier::external_body]
pub struct ExSystemTime(std::time::SystemTime);

/// Trusted: `std::time::SystemTime::now`. What the clock reads is not stated.
#[verifier::external_body]
fn system_now() -> std::time::SystemTime {
    std::time::SystemTime::now()
}

/// Trusted: `SystemTime::duration_since(UNIX_EPOCH)`, as whole seconds and the nanoseconds
/// within the second (`Duration::subsec_nanos` is below one billion); `None` when the time
/// lies before the Unix epoch (the case in which `chrono::Local::now` panics).
#[verifier::external_body]
fn time_since_epoch(t: &std::time::SystemTime) -> (r: Option<(u64, u32)>)
    ensures
        r matches Some(d) ==> d.1 < 1_000_000_000,
{
    match t.duration_since(std::time::UNIX_EPOCH) {
        Ok(d) => Some((d.as_secs(), d.subsec_nanos())),
        Err(_) => None,
    }
}

/// Earliest second count (since the Unix epoch) that lies a full day inside chrono's
/// range of instants, whose first is `-262143-01-01T00:00:00Z` (`-8334601315200`).
pub const EARLIEST_CLOCK_SECS: i64 = -8334601228800;

/// Latest second count (since the Unix epoch) that lies a full day inside chrono's range
/// of instants, whose last second is `+262142-12-31T23:59:59Z` (`8210266876799`).
pub const LATEST_CLOCK_SECS: i64 = 8210266790399;

/// Trusted: chrono's `DateTime::from_timestamp(secs, nanos)`, taken to the local time zone
/// (`with_timezone(&Local)`) and to its date (`date_naive`). `date_naive` adds the local
/// offset (less than a day) and panics when that leaves chrono's range, so `secs` must lie a
/// day inside it; `from_timestamp` may give `None` (for instance for `nanos` of two billion
/// or more), which is passed on. Which date comes back depends on the time zone, so only that it
/// is a valid calendar date is stated. chrono's offset lookup expects the time-zone data to
/// cover the instant.
#[verifier::external_body]
fn local_date_at(secs: i64, nanos: u32) -> (t: Option<(i32, u32, u32)>)
    requires
        EARLIEST_CLOCK_SECS <= secs <= LATEST_CLOCK_SECS,
    ensures
        t matches Some(d) ==> is_valid_date(d.0 as int, d.1 as int, d.2 as int),
{
    match chrono::DateTime::from_timestamp(secs, nanos) {
        Some(utc) => {
            let d = utc.with_timezone(&chrono::Local).date_naive();
            Some((d.year(), d.month(), d.day()))
        },
        None => None,
    }
}

/// Today's local date as `(year, month, day)`, or `None` when the clock reads before the
/// Unix epoch or later than a date can safely hold.
fn local_today() -> (t: Option<(i32, u32, u32)>)
    ensures
        t matches Some(d) ==> is_valid_date(d.0 as int, d.1 as int, d.2 as int),
{
    let now = system_now();
    match time_since_epoch(&now) {
        None => None,
        Some((secs, nanos)) => {
            if secs <= LATEST_CLOCK_SECS as u64 {
                local_date_at(secs as i64, nanos)
            } else {
                None
            }
        },
    }
}

/// The date of a clock reading `(year, month, day)`: `None` when there is no reading or it
/// is not a calendar date.
pub fn date_from_reading(reading: Option<(i32, u32, u32)>) -> (r: Option<Date>)
    ensures
        match reading {
            Some(t) => if is_valid_date(t.0 as int, t.1 as int, t.2 as int) {
                r matches Some(d) && d@ == (t.0 as int, t.1 as int, t.2 as int)
            } else {
                r is None
            },
            None => r is None,
        },
{
    match reading {
        Some((y, m, d)) => Date::from_ymd_opt(y, m, d),
        None => None,
    }
}

/// Current local `(year, month)`, or `None` when the system clock cannot be read as a date
/// (it reads before 1970).
pub fn current_year_month() -> (r: Option<(i32, u32)>)
    ensures
        r matches Some(ym) ==> 1 <= ym.1 <= 12 && min_date_year() <= ym.0 <= max_date_year(),
{
    match current_date() {
        Some(d) => Some((d.year(), d.month())),
        None => None,
    }
}

/// Current local date, or `None` when the system clock cannot be read as a date (it reads
/// before 1970).
pub fn current_date() -> (d: Option<Date>)
    ensures
        d matches Some(x) ==> is_valid_date(x@.0, x@.1, x@.2),
{
    date_from_reading(local_today())
}

proof fn lemma_two_digits(m: int)
    requires
        0 <= m <= 99,
    ensures
        zero_pad(decimal(m as nat), 2) == seq![digit_char(m / 10), digit_char(m % 10)],
{
    if m < 10 {
        assert(decimal(m as nat) == seq![digit_char(m)]);
        assert(zero_pad(decimal(m as nat), 2) =~= seq![digit_char(0), digit_char(m)]);
    } else {
        assert(decimal((m / 10) as nat) == seq![digit_char(m / 10)]);
        assert(decimal(m as nat) =~= seq![digit_char(m / 10), digit_char(m % 10)]);
    }
}

proof fn lemma_four_digits(y: int)
    requires
        0 <= y <= 9999,
    ensures
        zero_pad(decimal(y as nat), 4) == seq![
            digit_char(y / 1000),
            digit_char((y / 100) % 10),
            digit_char((y / 10) % 10),
            digit_char(y % 10),
        ],
{
    let d0 = digit_char(y % 10);
    let d1 = digit_char((y / 10) % 10);
    let d2 = digit_char((y / 100) % 10);
    let d3 = digit_char(y / 1000);
    assert((y / 10) / 10 == y / 100);
    assert((y / 100) / 10 == y / 1000);
    if y < 10 {
        assert(decimal(y as nat) == seq![d0]);
        assert(zero_pad(decimal(y as nat), 4) =~= seq![digit_char(0), digit_char(0), digit_char(0), d0]);
    } else if y < 100 {
        assert(decimal((y / 10) as nat) == seq![d1]);
        assert(decimal(y as nat) =~= seq![d1, d0]);
        assert(zero_pad(decimal(y as nat), 4) =~= seq![digit_char(0), digit_char(0), d1, d0]);
    } else if y < 1000 {
        assert(decimal((y / 100) as nat) == seq![d2]);
        assert(decimal((y / 10) as nat) =~= seq![d2, d1]);
        assert(decimal(y as nat) =~= seq![d2, d1, d0]);
        assert(zero_pad(decimal(y as nat), 4) =~= seq![digit_char(0), d2, d1, d0]);
    } else {
        assert(decimal((y / 1000) as nat) == seq![d3]);
        assert(decimal((y / 100) as nat) =~= seq![d3, d2]);
        assert(decimal((y / 10) as nat) =~= seq![d3, d2, d1]);
        assert(decimal(y as nat) =~= seq![d3, d2, d1, d0]);
    }
}

/// Month directory names sort chronologically: for months `a < b`, the name of `a` sorts
/// before the name of `b`.
pub proof fn lemma_month_dir_names_sort_chronologically(a: int, b: int)
    requires
        1 <= a < b <= 12,
    ensures
        lex_lt(spec_month_dir_name(a), spec_month_dir_name(b)),
{
    lemma_two_digits(a);
    lemma_two_digits(b);
    let sa = spec_month_dir_name(a);
    let sb = spec_month_dir_name(b);
    assert(sa[0] == digit_char(a / 10) && sa[1] == digit_char(a % 10));
    assert(sb[0] == digit_char(b / 10) && sb[1] == digit_char(b % 10));
    if a / 10 < b / 10 {
        assert(sa.take(0) =~= sb.take(0));
        assert(sa[0] < sb[0]);
    } else {
        assert(sa.take(1) =~= sb.take(1));
        assert(sa[1] < sb[1]);
    }
}

proof fn lemma_digit_decomposition(y: int)
    requires
        0 <= y <= 9999,
    ensures
        y == 1000 * (y / 1000) + 100 * ((y / 100) % 10) + 10 * ((y / 10) % 10) + y % 10,
        0 <= y / 1000 <= 9,
        0 <= (y / 100) % 10 <= 9,
        0 <= (y / 10) % 10 <= 9,
        0 <= y % 10 <= 9,
{
    assert(y == 1000 * (y / 1000) + 100 * ((y / 100) % 10) + 10 * ((y / 10) % 10) + y % 10
        && 0 <= y / 1000 <= 9) by (nonlinear_arith)
        requires
            0 <= y <= 9999,
    ;
}

proof fn lemma_first_smaller_digit(a3: int, a2: int, a1: int, a0: int, b3: int, b2: int, b1: int, b0: int)
    requires
        0 <= a3 <= 9 && 0 <= a2 <= 9 && 0 <= a1 <= 9 && 0 <= a0 <= 9,
        0 <= b3 <= 9 && 0 <= b2 <= 9 && 0 <= b1 <= 9 && 0 <= b0 <= 9,
        1000 * a3 + 100 * a2 + 10 * a1 + a0 < 1000 * b3 + 100 * b2 + 10 * b1 + b0,
    ensures
        a3 < b3 || (a3 == b3 && a2 < b2) || (a3 == b3 && a2 == b2 && a1 < b1) || (a3 == b3 && a2
            == b2 && a1 == b1 && a0 < b0),
{
}

/// Year directory names of years `0..=9999` sort chronologically.
pub proof fn lemma_year_dir_names_sort_chronologically(a: int, b: int)
    requires
        0 <= a < b <= 9999,
    ensures
        lex_lt(spec_year_dir_name(a), spec_year_dir_name(b)),
{
    lemma_four_digits(a);
    lemma_four_digits(b);
    lemma_digit_decomposition(a);
    lemma_digit_decomposition(b);
    let (a3, a2, a1, a0) = (a / 1000, (a / 100) % 10, (a / 10) % 10, a % 10);
    let (b3, b2, b1, b0) = (b / 1000, (b / 100) % 10, (b / 10) % 10, b % 10);
    lemma_first_smaller_digit(a3, a2, a1, a0, b3, b2, b1, b0);
    let sa = spec_year_dir_name(a);
    let sb = spec_year_dir_name(b);
    assert(sa == seq![digit_char(a3), digit_char(a2), digit_char(a1), digit_char(a0)]);
    assert(sb == seq![digit_char(b3), digit_char(b2), digit_char(b1), digit_char(b0)]);
    if a3 < b3 {
        assert(sa.take(0) =~= sb.take(0));
    } else if a2 < b2 {
        assert(sa.take(1) =~= sb.take(1));
    } else if a1 < b1 {
        assert(sa.take(2) =~= sb.take(2));
    } else {
        assert(sa.take(3) =~= sb.take(3));
    }
}

/// Parsing `YYYY-MM`, written the way `month` names its directories, gives back the year
/// and month, for every non-negative year.
pub proof fn lemma_parse_year_month_round_trip(y: int, m: int)
    requires
        0 <= y <= i32::MAX,
        1 <= m <= 12,
    ensures
        year_month_parts(spec_year_dir_name(y) + seq!['-'] + month_number_text(m)) == Some((y, m)),
{
    let yt = spec_year_dir_name(y);
    let mt = month_number_text(m);
    let s = yt + seq!['-'] + mt;
    lemma_zero_pad_value(y as nat, 4);
    lemma_zero_pad_value(m as nat, 2);
    let l = yt.len() as int;
    assert(s[l] == '-');
    assert forall|j: int| 0 <= j < l implies s[j] != '-' by {
        assert(s[j] == yt[j]);
        assert(is_ascii_digit(yt[j]));
    }
    let i = choose|i: int| 0 <= i < s.len() && s[i] == '-' && forall|j: int| 0 <= j < i ==> s[j] != '-';
    assert(0 <= l < s.len() && s[l] == '-' && forall|j: int| 0 <= j < l ==> s[j] != '-');
    if i < l {
        assert(s[i] != '-');
    } else if i > l {
        assert(s[l] != '-');
    }
    assert(first_index_of(s, '-') == Some(l));
    assert(s.take(l) =~= yt);
    assert(s.skip(l + 1) =~= mt);
    assert(is_ascii_digit(yt[0]));
    assert(is_ascii_digit(mt[0]));
}

/// Characters of the slug that `export_slug` builds, and whether a separator is pending,
/// after reading `s` from left to right.
///
/// An ASCII letter or digit is emitted lowercased, preceded by a single `-` when a run of
/// separators (space, `_`, `-`) came before it and something was already emitted. Any
/// other character is dropped without ending the current word.
pub open spec fn slug_state(s: Seq<char>) -> (Seq<char>, bool)
    decreases s.len(),
{
    if s.len() == 0 {
        (Seq::<char>::empty(), false)
    } else {
        slug_step(slug_state(s.drop_last()), s.last())
    }
}

/// Characters that separate words in an export name.
pub open spec fn is_separator(c: char) -> bool {
    c == ' ' || c == '_' || c == '-'
}

/// One character of the slug scan: the output so far and whether a separator is pending.
pub open spec fn slug_step(st: (Seq<char>, bool), c: char) -> (Seq<char>, bool) {
    if is_ascii_alnum(c) {
        let out = if st.1 && st.0.len() > 0 { st.0.push('-') } else { st.0 };
        (out.push(ascii_lower(c)), false)
    } else if is_separator(c) {
        (st.0, true)
    } else {
        st
    }
}

/// The slug of `s`.
pub open spec fn spec_export_slug(s: Seq<char>) -> Seq<char> {
    slug_state(s).0
}

/// Lowercase, collapse runs of spaces/underscores/hyphens into single hyphens, strip
/// every other non-alphanumeric character, and trim leading/trailing hyphens.
///
/// `"Charlie Bean!"` -> `"charlie-bean"`.
pub fn export_slug(input: &str) -> (out: String)
    ensures
        out@ == spec_export_slug(input@),
{
    let mut out = empty_string();
    let mut pending_separator = false;
    for ch in it: input.chars()
        invariant
            it.seq() == input@,
            (out@, pending_separator) == slug_state(input@.take(it.index())),
    {
        proof {
            assert(input@.take(it.index() + 1).drop_last() =~= input@.take(it.index()));
        }
        if is_ascii_alnum_char(ch) {
            if pending_separator && out.as_str().unicode_len() > 0 {
                push_char(&mut out, '-');
            }
            pending_separator = false;
            push_char(&mut out, ascii_lower_char(ch));
        } else if ch == ' ' || ch == '_' || ch == '-' {
            pending_separator = true;
        }
    }
    assert(input@.take(input@.len() as int) =~= input@);
    out
}

/// A well-formed slug: lowercase ASCII letters, digits and hyphens, with no hyphen at
/// either end and no two hyphens in a row.
pub open spec fn is_valid_slug(t: Seq<char>) -> bool {
    &&& forall|i: int|
        0 <= i < t.len() ==> is_ascii_lower(#[trigger] t[i]) || is_ascii_digit(t[i]) || t[i] == '-'
    &&& t.len() > 0 ==> t[0] != '-' && t.last() != '-'
    &&& forall|i: int| 0 <= i < t.len() - 1 && #[trigger] t[i] == '-' ==> t[i + 1] != '-'
}

/// `s` with every `-` removed.
pub open spec fn without_hyphens(s: Seq<char>) -> Seq<char> {
    s.filter(|c: char| c != '-')
}

/// The ASCII letters and digits of `s`, in order, lowercased.
pub open spec fn slug_letters(s: Seq<char>) -> Seq<char> {
    lower_seq(s.filter(|c: char| is_ascii_alnum(c)))
}

proof fn lemma_ascii_lower_facts(c: char)
    ensures
        is_ascii_alnum(c) ==> is_ascii_lower(ascii_lower(c)) || is_ascii_digit(ascii_lower(c)),
        is_ascii_lower(c) || is_ascii_digit(c) ==> ascii_lower(c) == c,
        is_ascii_alnum(c) ==> ascii_lower(c) != '-',
{
}

proof fn lemma_slug_state_valid(s: Seq<char>)
    ensures
        is_valid_slug(slug_state(s).0),
        slug_state(s).0.len() == 0 ==> !(exists|i: int| 0 <= i < s.len() && is_ascii_alnum(s[i])),
    decreases s.len(),
{
    if s.len() > 0 {
        let prev = slug_state(s.drop_last());
        lemma_slug_state_valid(s.drop_last());
        let c = s.last();
        lemma_ascii_lower_facts(c);
        if is_ascii_alnum(c) {
            let out = if prev.1 && prev.0.len() > 0 { prev.0.push('-') } else { prev.0 };
            let res = out.push(ascii_lower(c));
            assert forall|i: int| 0 <= i < res.len() - 1 && #[trigger] res[i] == '-' implies res[i
                + 1] != '-' by {
                if i < prev.0.len() - 1 {
                    assert(res[i] == prev.0[i]);
                }
            }
            assert(is_valid_slug(res));
        } else {
            assert forall|i: int| 0 <= i < s.len() && is_ascii_alnum(s[i]) implies slug_state(
                s,
            ).0.len() > 0 by {
                if i < s.len() - 1 {
                    assert(s.drop_last()[i] == s[i]);
                }
            }
        }
    }
}

/// What `slug_state` yields on the first `k` characters of a valid slug `t`: the prefix
/// itself, with a trailing hyphen held back as a pending separator.
proof fn lemma_slug_state_of_valid_prefix(t: Seq<char>, k: int)
    requires
        is_valid_slug(t),
        0 <= k <= t.len(),
    ensures
        k == 0 ==> slug_state(t.take(k)) == (Seq::<char>::empty(), false),
        k > 0 && t[k - 1] == '-' ==> slug_state(t.take(k)) == (t.take(k - 1), true),
        k > 0 && t[k - 1] != '-' ==> slug_state(t.take(k)) == (t.take(k), false),
    decreases k,
{
    if k > 0 {
        lemma_slug_state_of_valid_prefix(t, k - 1);
        assert(t.take(k).drop_last() =~= t.take(k - 1));
        let c = t[k - 1];
        assert(t.take(k).last() == c);
        lemma_ascii_lower_facts(c);
        if c == '-' {
            if k >= 2 {
                assert(t[k - 2] != '-');
            }
        } else {
            if k >= 2 && t[k - 2] == '-' {
                assert(t.take(k - 2).push('-') =~= t.take(k - 1));
                assert(t.take(k - 1).push(c) =~= t.take(k));
            } else {
                assert(t.take(k - 1).push(c) =~= t.take(k));
            }
        }
    }
}

/// A valid slug is its own slug.
pub proof fn lemma_slug_of_valid_slug(t: Seq<char>)
    requires
        is_valid_slug(t),
    ensures
        spec_export_slug(t) == t,
{
    lemma_slug_state_of_valid_prefix(t, t.len() as int);
    assert(t.take(t.len() as int) =~= t);
}

/// Every slug is well formed: lowercase ASCII letters, digits and single inner hyphens;
/// it is empty only when the input holds no ASCII letter or digit.
pub proof fn lemma_slug_is_valid(s: Seq<char>)
    ensures
        is_valid_slug(spec_export_slug(s)),
        spec_export_slug(s).len() == 0 <==> !(exists|i: int|
            0 <= i < s.len() && is_ascii_alnum(#[trigger] s[i])),
{
    lemma_slug_state_valid(s);
    lemma_slug_letters(s);
    let t = spec_export_slug(s);
    let hy = |x: char| x != '-';
    let al = |x: char| is_ascii_alnum(x);
    if t.len() > 0 {
        t.lemma_filter_contains(hy, 0);
        assert(without_hyphens(t).len() > 0);
        assert(s.filter(al).len() > 0);
        let e = s.filter(al)[0];
        s.lemma_filter_pred(al, 0);
        assert(s.filter(al).contains(e));
        s.lemma_filter_contains_rev(al, e);
        let j = choose|j: int| 0 <= j < s.len() && s[j] == e;
        assert(is_ascii_alnum(s[j]));
    }
}

/// Slugging is idempotent: the slug of a slug is the slug itself.
pub proof fn lemma_slug_idempotent(s: Seq<char>)
    ensures
        spec_export_slug(spec_export_slug(s)) == spec_export_slug(s),
{
    lemma_slug_state_valid(s);
    lemma_slug_of_valid_slug(spec_export_slug(s));
}

/// Apart from its hyphens, a slug is exactly the input's ASCII letters and digits, in
/// order, lowercased.
pub proof fn lemma_slug_letters(s: Seq<char>)
    ensures
        without_hyphens(spec_export_slug(s)) == slug_letters(s),
    decreases s.len(),
{
    if s.len() == 0 {
        assert(without_hyphens(spec_export_slug(s)) =~= Seq::<char>::empty());
        assert(slug_letters(s) =~= Seq::<char>::empty());
    } else {
        let p = s.drop_last();
        let c = s.last();
        lemma_slug_letters(p);
        let prev = slug_state(p);
        let hy = |x: char| x != '-';
        let al = |x: char| is_ascii_alnum(x);
        assert(s =~= p.push(c));
        p.lemma_filter_push(c, al);
        lemma_ascii_lower_facts(c);
        if is_ascii_alnum(c) {
            let out = if prev.1 && prev.0.len() > 0 { prev.0.push('-') } else { prev.0 };
            if prev.1 && prev.0.len() > 0 {
                prev.0.lemma_filter_push('-', hy);
            }
            assert(out.filter(hy) == prev.0.filter(hy));
            out.lemma_filter_push(ascii_lower(c), hy);
            assert(lower_seq(p.filter(al).push(c)) =~= lower_seq(p.filter(al)).push(ascii_lower(c)));
        }
    }
}

/// The slug scan of `y` started from state `st`.
spec fn slug_run(st: (Seq<char>, bool), y: Seq<char>) -> (Seq<char>, bool)
    decreases y.len(),
{
    if y.len() == 0 {
        st
    } else {
        slug_step(slug_run(st, y.drop_last()), y.last())
    }
}

proof fn lemma_slug_state_concat(x: Seq<char>, y: Seq<char>)
    ensures
        slug_state(x + y) == slug_run(slug_state(x), y),
    decreases y.len(),
{
    if y.len() == 0 {
        assert(x + y =~= x);
    } else {
        lemma_slug_state_concat(x, y.drop_last());
        assert((x + y).drop_last() =~= x + y.drop_last());
        assert((x + y).last() == y.last());
    }
}

/// No character of `m` is an ASCII letter or digit.
pub open spec fn no_alnum(m: Seq<char>) -> bool {
    forall|i: int| 0 <= i < m.len() ==> !is_ascii_alnum(#[trigger] m[i])
}

/// Every character of `v` is an ASCII letter or digit.
pub open spec fn all_alnum(v: Seq<char>) -> bool {
    forall|i: int| 0 <= i < v.len() ==> is_ascii_alnum(#[trigger] v[i])
}

/// `m` holds a space, an underscore or a hyphen.
pub open spec fn holds_word_break(m: Seq<char>) -> bool {
    exists|i: int| 0 <= i < m.len() && (#[trigger] m[i] == ' ' || m[i] == '_' || m[i] == '-')
}

proof fn lemma_slug_run_gap(st: (Seq<char>, bool), m: Seq<char>)
    requires
        no_alnum(m),
    ensures
        slug_run(st, m) == (st.0, st.1 || holds_word_break(m)),
    decreases m.len(),
{
    if m.len() == 0 {
        assert(!holds_word_break(m));
    } else {
        let p = m.drop_last();
        assert(no_alnum(p)) by {
            assert forall|i: int| 0 <= i < p.len() implies !is_ascii_alnum(#[trigger] p[i]) by {
                assert(p[i] == m[i]);
            }
        }
        lemma_slug_run_gap(st, p);
        let c = m.last();
        assert(m[m.len() - 1] == c);
        if c == ' ' || c == '_' || c == '-' {
            assert(holds_word_break(m));
        } else {
            assert(holds_word_break(m) == holds_word_break(p)) by {
                if holds_word_break(m) {
                    let i = choose|i: int| 0 <= i < m.len() && (#[trigger] m[i] == ' ' || m[i] == '_' || m[i] == '-');
                    assert(i != m.len() - 1);
                    assert(p[i] == m[i]);
                }
                if holds_word_break(p) {
                    let i = choose|i: int| 0 <= i < p.len() && (#[trigger] p[i] == ' ' || p[i] == '_' || p[i] == '-');
                    assert(m[i] == p[i]);
                }
            }
        }
    }
}

proof fn lemma_slug_run_word(st: (Seq<char>, bool), v: Seq<char>)
    requires
        all_alnum(v),
        v.len() > 0,
    ensures
        slug_run(st, v) == ((if st.1 && st.0.len() > 0 { st.0.push('-') } else { st.0 }) + lower_seq(v), false),
    decreases v.len(),
{
    let p = v.drop_last();
    let c = v.last();
    assert(v[v.len() - 1] == c);
    assert(is_ascii_alnum(c));
    let out = if st.1 && st.0.len() > 0 { st.0.push('-') } else { st.0 };
    if p.len() == 0 {
        assert(slug_run(st, p) == st);
        assert(lower_seq(v) =~= seq![ascii_lower(c)]);
        assert(out.push(ascii_lower(c)) =~= out + lower_seq(v));
    } else {
        assert(all_alnum(p)) by {
            assert forall|i: int| 0 <= i < p.len() implies is_ascii_alnum(#[trigger] p[i]) by {
                assert(p[i] == v[i]);
            }
        }
        lemma_slug_run_word(st, p);
        assert(lower_seq(v) =~= lower_seq(p).push(ascii_lower(c)));
        assert((out + lower_seq(p)).push(ascii_lower(c)) =~= out + lower_seq(v));
    }
}

/// A name made only of ASCII letters and digits slugs to itself, lowercased.
pub proof fn lemma_slug_of_word(u: Seq<char>)
    requires
        all_alnum(u),
    ensures
        spec_export_slug(u) == lower_seq(u),
{
    lemma_slug_state_concat(Seq::<char>::empty(), u);
    assert(Seq::<char>::empty() + u =~= u);
    if u.len() == 0 {
        assert(lower_seq(u) =~= Seq::<char>::empty());
    } else {
        lemma_slug_run_word((Seq::<char>::empty(), false), u);
        assert(Seq::<char>::empty() + lower_seq(u) =~= lower_seq(u));
    }
}

/// Between a letter or digit and the next word of letters and digits, the slug holds one
/// hyphen exactly when the characters in between include a space, an underscore or a
/// hyphen; any other characters there are stripped and change nothing.
pub proof fn lemma_slug_word_break(x: Seq<char>, m: Seq<char>, v: Seq<char>)
    requires
        x.len() > 0,
        is_ascii_alnum(x.last()),
        no_alnum(m),
        all_alnum(v),
        v.len() > 0,
    ensures
        spec_export_slug(x + m + v) == spec_export_slug(x) + (if holds_word_break(m) {
            seq!['-']
        } else {
            Seq::<char>::empty()
        }) + lower_seq(v),
{
    let sx = slug_state(x);
    assert(sx.1 == false && sx.0.len() > 0);
    lemma_slug_state_concat(x, m);
    lemma_slug_run_gap(sx, m);
    lemma_slug_state_concat(x + m, v);
    lemma_slug_run_word(slug_state(x + m), v);
    if holds_word_break(m) {
        assert(sx.0.push('-') =~= sx.0 + seq!['-']);
    } else {
        assert(sx.0 + Seq::<char>::empty() =~= sx.0);
    }
}

proof fn lemma_slug_run_empty_flag(b: bool, y: Seq<char>)
    ensures
        slug_run((Seq::<char>::empty(), b), y).0 == slug_run((Seq::<char>::empty(), false), y).0,
        slug_run((Seq::<char>::empty(), b), y).1 == slug_run((Seq::<char>::empty(), false), y).1
            || slug_run((Seq::<char>::empty(), b), y).0.len() == 0,
    decreases y.len(),
{
    if y.len() > 0 {
        lemma_slug_run_empty_flag(b, y.drop_last());
    }
}

/// Characters other than letters and digits at either end of a name change nothing.
pub proof fn lemma_slug_ignores_edges(m: Seq<char>, y: Seq<char>)
    requires
        no_alnum(m),
    ensures
        spec_export_slug(m + y) == spec_export_slug(y),
        spec_export_slug(y + m) == spec_export_slug(y),
{
    lemma_slug_state_concat(m, y);
    lemma_slug_state_concat(Seq::<char>::empty(), m);
    assert(Seq::<char>::empty() + m =~= m);
    lemma_slug_run_gap((Seq::<char>::empty(), false), m);
    lemma_slug_run_empty_flag(holds_word_break(m), y);
    lemma_slug_state_concat(Seq::<char>::empty(), y);
    assert(Seq::<char>::empty() + y =~= y);
    lemma_slug_state_concat(y, m);
    lemma_slug_run_gap(slug_state(y), m);
}

/// A character that is neither a letter, a digit, a space, an underscore nor a hyphen is
/// stripped: removing it from a name leaves the slug unchanged.
pub proof fn lemma_slug_strips_other(x: Seq<char>, c: char, y: Seq<char>)
    requires
        !is_ascii_alnum(c),
        c != ' ' && c != '_' && c != '-',
    ensures
        spec_export_slug(x.push(c) + y) == spec_export_slug(x + y),
{
    lemma_slug_state_concat(x.push(c), y);
    lemma_slug_state_concat(x, y);
    assert(x.push(c).drop_last() =~= x);
    assert(slug_state(x.push(c)) == slug_state(x));
}

} // verus!
